use parquet_ops::buffer::RowWriteBuffer;
use parquet_ops::cursor::RowIterExt;
use parquet_ops::errors::OpsError;
use parquet_ops::gen::{find_amount, find_time, make_label, test_parquet_row};
use parquet_ops::keys::{find_field, ParquetKey};
use parquet_ops::merge::merge_into;
use parquet_ops::model::{ConvertedType, FieldValue, PhysicalType, Row, Schema, SchemaField};
use parquet_ops::paths::{intermediate_path, parse_object_path, ObjectPath};
use parquet_ops::sorting::{partitioning, sort, sort_multistage, sort_rows, sort_simple};

fn field(name: &str, physical: PhysicalType, converted: ConvertedType) -> SchemaField {
    SchemaField { name: name.to_string(), physical, converted }
}

fn test_schema() -> Schema {
    Schema {
        fields: vec![
            field("id", PhysicalType::Int64, ConvertedType::Plain),
            field("account", PhysicalType::ByteArray, ConvertedType::Utf8),
            field("amount", PhysicalType::Int32, ConvertedType::Plain),
            field("datetime", PhysicalType::Int64, ConvertedType::TimestampMillis),
            field("extra_00", PhysicalType::ByteArray, ConvertedType::Utf8),
        ],
    }
}

fn id_schema() -> Schema {
    Schema { fields: vec![field("id", PhysicalType::Int64, ConvertedType::Plain)] }
}

fn id_account_schema() -> Schema {
    Schema {
        fields: vec![
            field("id", PhysicalType::Int64, ConvertedType::Plain),
            field("account", PhysicalType::ByteArray, ConvertedType::Utf8),
        ],
    }
}

fn id_row(id: i64) -> Row {
    Row { fields: vec![("id".to_string(), FieldValue::I64(id))] }
}

fn id_account_row(id: i64, account: &str) -> Row {
    Row {
        fields: vec![
            ("id".to_string(), FieldValue::I64(id)),
            ("account".to_string(), FieldValue::Text(account.as_bytes().to_vec())),
        ],
    }
}

fn appended_rows(writer: RowWriteBuffer) -> Vec<Row> {
    let mut out = Vec::new();
    for group in writer.groups {
        for row in group {
            out.push(row);
        }
    }
    for row in writer.buffer {
        out.push(row);
    }
    out
}

fn ids_of(rows: &[Row]) -> Vec<i64> {
    rows.iter()
        .map(|r| match r.fields[0].1 {
            FieldValue::I64(x) => x,
            _ => panic!("expected an i64 id"),
        })
        .collect()
}

#[test]
fn test_find_field() {
    let schema = test_schema();

    let idx = find_field(&schema, &"account".to_string()).unwrap();
    assert_eq!(idx, 1);

    let idx = find_field(&schema, &"datetime".to_string()).unwrap();
    assert_eq!(idx, 3);
}

#[test]
fn find_field_unknown_and_ambiguous() {
    let schema = test_schema();
    let err = find_field(&schema, &"missing".to_string()).unwrap_err();
    assert!(matches!(err, OpsError::UnknownField { .. }));

    let mut dup = test_schema();
    dup.fields.push(field("id", PhysicalType::Int64, ConvertedType::Plain));
    let err = find_field(&dup, &"id".to_string()).unwrap_err();
    assert!(matches!(err, OpsError::AmbiguousField { .. }));
}

#[test]
fn key_type_rejected_on_text_column() {
    let schema = test_schema();
    let err = ParquetKey::new("account".to_string(), &schema).unwrap_err();
    assert!(matches!(err, OpsError::UnsupportedKeyType { physical: PhysicalType::ByteArray }));
}

#[test]
fn two_way_merge() {
    let less = ParquetKey::new("id".to_string(), &id_schema()).unwrap();
    let a = RowIterExt::new(id_schema(), vec![0, 2, 4, 6, 8].into_iter().map(id_row).collect());
    let b = RowIterExt::new(id_schema(), vec![1, 3, 5, 7, 9].into_iter().map(id_row).collect());
    let mut writer = RowWriteBuffer::new(id_schema(), 10_000);
    merge_into(vec![a, b], &mut writer, &less).unwrap();
    writer.close();
    let rows = appended_rows(writer);
    assert_eq!(ids_of(&rows), vec![0, 1, 2, 3, 4, 5, 6, 7, 8, 9]);
}

#[test]
fn stable_merge_tie_break() {
    let less = ParquetKey::new("id".to_string(), &id_account_schema()).unwrap();
    let a = RowIterExt::new(
        id_account_schema(),
        vec![id_account_row(1, "a"), id_account_row(3, "a")],
    );
    let b = RowIterExt::new(
        id_account_schema(),
        vec![id_account_row(1, "b"), id_account_row(2, "b")],
    );
    let mut writer = RowWriteBuffer::new(id_account_schema(), 10_000);
    merge_into(vec![a, b], &mut writer, &less).unwrap();
    writer.close();
    let rows = appended_rows(writer);
    let expected = vec![
        id_account_row(1, "a"),
        id_account_row(1, "b"),
        id_account_row(2, "b"),
        id_account_row(3, "a"),
    ];
    assert_eq!(rows, expected);
}

#[test]
fn merge_of_exhausted_inputs_is_reported() {
    let less = ParquetKey::new("id".to_string(), &id_schema()).unwrap();
    let a = RowIterExt::new(id_schema(), Vec::new());
    let mut writer = RowWriteBuffer::new(id_schema(), 10_000);
    let err = merge_into(vec![a], &mut writer, &less).unwrap_err();
    assert!(matches!(err, OpsError::Internal { .. }));
}

#[test]
fn simple_sort() {
    let input = RowIterExt::new(
        id_schema(),
        vec![5, 1, 4, 2, 3].into_iter().map(id_row).collect(),
    );
    let mut writer = RowWriteBuffer::new(id_schema(), 10_000);
    sort(input, &mut writer, &"id".to_string(), 1000).unwrap();
    assert!(writer.closed);
    let rows = appended_rows(writer);
    assert_eq!(ids_of(&rows), vec![1, 2, 3, 4, 5]);
}

#[test]
fn sort_unknown_field_is_reported() {
    let input = RowIterExt::new(id_schema(), vec![id_row(1)]);
    let mut writer = RowWriteBuffer::new(id_schema(), 10_000);
    let err = sort(input, &mut writer, &"missing".to_string(), 1000).unwrap_err();
    assert!(matches!(err, OpsError::UnknownField { .. }));
}

#[test]
fn sort_rows_sorts_in_place() {
    let key = ParquetKey::new("id".to_string(), &id_schema()).unwrap();
    let mut rows: Vec<Row> = vec![9, 4, 7, 4, 1].into_iter().map(id_row).collect();
    sort_rows(&mut rows, &key);
    assert_eq!(ids_of(&rows), vec![1, 4, 4, 7, 9]);
}

#[test]
fn simple_sort_keeps_duplicates() {
    let key = ParquetKey::new("id".to_string(), &id_schema()).unwrap();
    let input = RowIterExt::new(
        id_schema(),
        vec![3, 1, 3, 2, 1].into_iter().map(id_row).collect(),
    );
    let mut writer = RowWriteBuffer::new(id_schema(), 10_000);
    sort_simple(input, &mut writer, &key).unwrap();
    let rows = appended_rows(writer);
    assert_eq!(ids_of(&rows), vec![1, 1, 2, 3, 3]);
}

#[test]
fn external_sort_three_partitions() {
    // A scaled-down external sort: non-uniformly distributed keys, three
    // partitions, blocks of 1000 rows.
    let key = ParquetKey::new("id".to_string(), &id_schema()).unwrap();
    let n: i64 = 3000;
    let mut ids: Vec<i64> = (0..n).map(|i| (i * i * 37 + i) % 997).collect();
    let rows: Vec<Row> = ids.iter().map(|i| id_row(*i)).collect();
    let input = RowIterExt::new(id_schema(), rows);
    let mut writer = RowWriteBuffer::new(id_schema(), 10_000);
    sort_multistage(input, &mut writer, &key, 3, 1000);
    assert!(writer.closed);
    let out = ids_of(&appended_rows(writer));
    ids.sort();
    assert_eq!(out, ids);
}

#[test]
fn partition_splitters_are_nondecreasing_and_ranges_disjoint() {
    let key = ParquetKey::new("id".to_string(), &id_schema()).unwrap();
    let sample: Vec<Row> = (0..100).map(|i| id_row((i * 53) % 101)).collect();
    let splitters = partitioning(sample, &key, 3);
    assert_eq!(splitters.len(), 2);
    let s0 = match splitters[0].fields[0].1 {
        FieldValue::I64(x) => x,
        _ => panic!("expected an i64 splitter"),
    };
    let s1 = match splitters[1].fields[0].1 {
        FieldValue::I64(x) => x,
        _ => panic!("expected an i64 splitter"),
    };
    assert!(s0 <= s1);
    // the two filters bracket a contiguous range
    let row = id_row((s0 + s1 + 1) / 2);
    let in_hi = key.partition_filter(&splitters[1], &row);
    let in_lo = key.partition_filter(&splitters[0], &row);
    assert!(in_hi);
    assert!(!in_lo || s0 == s1);
}

#[test]
fn row_group_count_follows_group_size() {
    // group_size 2 with 10 rows gives exactly ceil(10 / 2) = 5 row-groups
    let mut writer = RowWriteBuffer::new(id_schema(), 2);
    for i in 0..10 {
        writer.append_row(id_row(i)).unwrap();
    }
    writer.close();
    assert_eq!(writer.groups.len(), 5);
    assert!(writer.groups.iter().all(|g| g.len() == 2));
}

#[test]
fn row_group_count_rounds_up() {
    let mut writer = RowWriteBuffer::new(id_schema(), 4);
    for i in 0..10 {
        writer.append_row(id_row(i)).unwrap();
    }
    writer.close();
    assert_eq!(writer.groups.len(), 3);
    assert_eq!(writer.groups[2].len(), 2);
}

#[test]
fn closed_buffer_refuses_appends() {
    let mut writer = RowWriteBuffer::new(id_schema(), 2);
    writer.append_row(id_row(1)).unwrap();
    writer.close();
    let err = writer.append_row(id_row(2)).unwrap_err();
    assert!(matches!(err, OpsError::ClosedWriter));
    let err = writer.append_row_group(vec![id_row(3)]).unwrap_err();
    assert!(matches!(err, OpsError::ClosedWriter));
    // closing again changes nothing
    writer.close();
    assert_eq!(writer.groups.len(), 1);
}

#[test]
fn cursor_head_take_and_drain() {
    let mut it = RowIterExt::new(id_schema(), vec![1, 2, 3, 4, 5].into_iter().map(id_row).collect());
    assert_eq!(it.head().unwrap(), &id_row(1));
    let first_two = it.take(2).unwrap();
    assert_eq!(ids_of(&first_two), vec![1, 2]);
    let (row, terminal) = it.advance().unwrap();
    assert_eq!(row, id_row(3));
    assert!(!terminal);
    let mut writer = RowWriteBuffer::new(id_schema(), 10);
    it.drain(&mut writer);
    assert!(it.head().is_none());
    let rest = it.take(7);
    assert!(rest.is_none());
    writer.close();
    assert_eq!(ids_of(&appended_rows(writer)), vec![4, 5]);
}

#[test]
fn advance_past_end_is_exhausted() {
    let mut it = RowIterExt::new(id_schema(), vec![id_row(1)]);
    let (_, terminal) = it.advance().unwrap();
    assert!(terminal);
    let err = it.advance().unwrap_err();
    assert!(matches!(err, OpsError::Exhausted));
}

#[test]
fn object_path_grammar() {
    match parse_object_path("data/input.parquet").unwrap() {
        ObjectPath::Local { path } => assert_eq!(path, "data/input.parquet"),
        _ => panic!("expected a local path"),
    }
    match parse_object_path("s3:bucket:some/key.parquet").unwrap() {
        ObjectPath::Store { bucket, key } => {
            assert_eq!(bucket, "bucket");
            assert_eq!(key, "some/key.parquet");
        },
        _ => panic!("expected an object-store path"),
    }
    assert!(matches!(parse_object_path("s3:bucket").unwrap_err(), OpsError::BadPath));
    assert!(matches!(parse_object_path("s3::key").unwrap_err(), OpsError::BadPath));
    assert!(matches!(parse_object_path("s3:bucket:").unwrap_err(), OpsError::BadPath));
    assert!(matches!(parse_object_path("s3:bucket:a:b").unwrap_err(), OpsError::BadPath));
    assert!(matches!(parse_object_path("mem:buffer").unwrap_err(), OpsError::BadPath));
}

#[test]
fn intermediate_paths_substitute_the_suffix() {
    assert_eq!(intermediate_path("out.parquet", 0), "outintermediate-0.parquet");
    assert_eq!(intermediate_path("dir/sorted.parquet", 2), "dir/sortedintermediate-2.parquet");
    assert_eq!(intermediate_path("plain", 10), "plainintermediate-10.parquet");
}

#[test]
fn generated_values_are_deterministic() {
    assert_eq!(make_label(0), "aaaaaa");
    assert_eq!(make_label(10), "aaaaab");
    assert_eq!(make_label(260), "aaaaba");
    assert_eq!(find_amount(0), -4);
    assert_eq!(find_amount(9), 5);
    assert_eq!(find_time(0), 16445376000000);
    assert_eq!(find_time(1), 16445376010000);
}

#[test]
fn generated_rows_line_up_with_the_test_schema() {
    let schema = parquet_ops::gen::get_test_schema(1);
    assert_eq!(schema.fields.len(), 5);
    assert_eq!(schema.fields[4].name, "extra_00");
    let row = test_parquet_row(7, 1);
    assert_eq!(row.fields.len(), 5);
    assert_eq!(row.fields[0].1, FieldValue::I64(7));
    assert_eq!(row.fields[1].1, FieldValue::Text(b"aaaaaa".to_vec()));
    assert!(parquet_ops::model::row_consistent(&row, &schema));
}

#[test]
fn barriers_detect_a_changed_word() {
    let mut b = parquet_ops::barrier::Barrier::new(0xeeee, 16);
    b.add_barrier();
    b.add_barrier();
    assert!(b.check_barriers());
    b.barriers[1][3] = 0;
    assert!(!b.check_barriers());
}

#[test]
fn sort_dispatches_to_the_two_phase_path_on_large_objects() {
    // an object size beyond the single-pass limit routes through the
    // partitioned sort; the result is the same sorted sequence
    let input = RowIterExt::new(
        id_schema(),
        vec![7, 3, 9, 1, 5, 2, 8].into_iter().map(id_row).collect(),
    );
    let mut writer = RowWriteBuffer::new(id_schema(), 10_000);
    sort(input, &mut writer, &"id".to_string(), 3_000_000_000).unwrap();
    let rows = appended_rows(writer);
    assert_eq!(ids_of(&rows), vec![1, 2, 3, 5, 7, 8, 9]);
}

#[test]
fn stage_one_partitions_have_disjoint_key_ranges() {
    let key = ParquetKey::new("id".to_string(), &id_schema()).unwrap();
    let sample: Vec<Row> = (0..90).map(|i| id_row((i * 7) % 90)).collect();
    let splitters = partitioning(sample, &key, 3);
    let rows: Vec<Row> = (0..300).map(|i| id_row((i * 13) % 89)).collect();
    let input = RowIterExt::new(id_schema(), rows);
    let parts = parquet_ops::sorting::sort_ms_stage_1(input, &splitters, &key, 100);
    assert_eq!(parts.len(), splitters.len() + 1);
    assert_eq!(parts.iter().map(|p| p.len()).sum::<usize>(), 300);
    // ranges are disjoint: the largest key of a partition is at most the
    // splitter, and the smallest key of the next partition exceeds it
    for (i, part) in parts.iter().enumerate() {
        for row in part {
            let k = ids_of(std::slice::from_ref(row))[0];
            if i < splitters.len() {
                let s = ids_of(std::slice::from_ref(&splitters[i]))[0];
                assert!(k <= s);
            }
            if i > 0 {
                let s = ids_of(std::slice::from_ref(&splitters[i - 1]))[0];
                assert!(k > s);
            }
        }
    }
}

#[test]
fn flush_sends_a_partial_group_and_skips_an_empty_one() {
    let mut writer = RowWriteBuffer::new(id_schema(), 100);
    writer.append_row(id_row(1)).unwrap();
    writer.append_row(id_row(2)).unwrap();
    writer.flush().unwrap();
    assert_eq!(writer.groups.len(), 1);
    assert_eq!(writer.groups[0].len(), 2);
    writer.flush().unwrap();
    assert_eq!(writer.groups.len(), 1);
    assert_eq!(writer.remaining_space(), 100);
}

#[test]
fn partition_message_schema_names_the_key() {
    let key = ParquetKey::new("id".to_string(), &id_schema()).unwrap();
    assert_eq!(
        key.get_partition_message_schema(),
        "message schema { REQUIRED INT64 id; }"
    );
}

#[test]
fn single_pass_sort_rejects_oversized_input() {
    let n: i64 = 1_000_001;
    let rows: Vec<Row> = (0..n).map(|i| id_row((n - i) % 977)).collect();
    let input = RowIterExt::new(id_schema(), rows);
    let mut writer = RowWriteBuffer::new(id_schema(), 10_000);
    let err = sort(input, &mut writer, &"id".to_string(), 1000).unwrap_err();
    assert!(matches!(err, OpsError::InputTooLarge));
    assert_eq!(writer.groups.len(), 0);
}

#[test]
fn two_sorts_agree_on_keys() {
    // the single-pass and the two-phase sort order the same input the same
    // way, key for key
    let key = ParquetKey::new("id".to_string(), &id_schema()).unwrap();
    let ids: Vec<i64> = (0..500).map(|i| (i * 31) % 40).collect();
    let a = RowIterExt::new(id_schema(), ids.iter().map(|i| id_row(*i)).collect());
    let b = RowIterExt::new(id_schema(), ids.iter().map(|i| id_row(*i)).collect());
    let mut w1 = RowWriteBuffer::new(id_schema(), 10_000);
    sort_simple(a, &mut w1, &key).unwrap();
    let mut w2 = RowWriteBuffer::new(id_schema(), 10_000);
    sort_multistage(b, &mut w2, &key, 3, 100);
    assert_eq!(ids_of(&appended_rows(w1)), ids_of(&appended_rows(w2)));
}
