// End-to-end round trips through the real Parquet codec, held entirely in
// memory: the library encodes columns and statistics, the codec serializes
// and parses the bytes.

use std::sync::Arc;

use bytes::Bytes;
use parquet::basic::Compression;
use parquet::data_type::{ByteArray, ByteArrayType, Int32Type, Int64Type};
use parquet::file::properties::WriterProperties;
use parquet::file::reader::FileReader;
use parquet::file::statistics::Statistics;
use parquet::file::reader::SerializedFileReader;
use parquet::file::writer::SerializedFileWriter;
use parquet::record::RowAccessor;
use parquet::schema::parser::parse_message_type;

use parquet_ops::buffer::RowWriteBuffer;
use parquet_ops::columns::{encode_batch, rows_from_columns, ColumnData};
use parquet_ops::model::{ConvertedType, FieldValue, PhysicalType, Row, Schema, SchemaField};

fn id_account_schema() -> Schema {
    Schema {
        fields: vec![
            SchemaField {
                name: "id".to_string(),
                physical: PhysicalType::Int64,
                converted: ConvertedType::Plain,
            },
            SchemaField {
                name: "account".to_string(),
                physical: PhysicalType::ByteArray,
                converted: ConvertedType::Utf8,
            },
        ],
    }
}

fn id_account_row(id: i64, account: &str) -> Row {
    Row {
        fields: vec![
            ("id".to_string(), FieldValue::I64(id)),
            ("account".to_string(), FieldValue::Text(account.as_bytes().to_vec())),
        ],
    }
}

const MESSAGE_TYPE: &str = "
message schema {
    REQUIRED INT64 id;
    REQUIRED BINARY account (UTF8);
}
";

/// Serialize row-groups of encoded columns as one in-memory Parquet object.
fn write_groups_to_bytes(groups: &[Vec<Row>], schema: &Schema, message_type: &str) -> Vec<u8> {
    let parquet_schema = Arc::new(parse_message_type(message_type).unwrap());
    let props = Arc::new(WriterProperties::builder().set_compression(Compression::SNAPPY).build());
    let mut writer =
        SerializedFileWriter::new(Vec::new(), parquet_schema, props).unwrap();
    for group in groups {
        let cols = encode_batch(group, schema).unwrap();
        let mut rg = writer.next_row_group().unwrap();
        for col in &cols {
            let mut cw = rg.next_column().unwrap().unwrap();
            match col {
                ColumnData::I64Column { values, min, max } => {
                    cw.typed::<Int64Type>()
                        .write_batch_with_statistics(values, None, None, Some(min), Some(max), None)
                        .unwrap();
                },
                ColumnData::I32Column { values, min, max } => {
                    cw.typed::<Int32Type>()
                        .write_batch_with_statistics(values, None, None, Some(min), Some(max), None)
                        .unwrap();
                },
                ColumnData::TextColumn { values, min, max } => {
                    let bytes: Vec<ByteArray> =
                        values.iter().map(|v| ByteArray::from(v.clone())).collect();
                    let bmin = ByteArray::from(min.clone());
                    let bmax = ByteArray::from(max.clone());
                    cw.typed::<ByteArrayType>()
                        .write_batch_with_statistics(&bytes, None, None, Some(&bmin), Some(&bmax), None)
                        .unwrap();
                },
            }
            cw.close().unwrap();
        }
        rg.close().unwrap();
    }
    writer.into_inner().unwrap()
}

/// Read every row of an in-memory Parquet object back as library rows.
fn read_rows_from_bytes(data: Vec<u8>) -> Vec<Row> {
    let reader = SerializedFileReader::new(Bytes::from(data)).unwrap();
    let mut out = Vec::new();
    for row in reader.get_row_iter(None).unwrap() {
        let row = row.unwrap();
        out.push(id_account_row(row.get_long(0).unwrap(), row.get_string(1).unwrap()));
    }
    out
}

#[test]
fn rowwritebuffer_test_write_parquet() {
    // three rows buffered, cut into row-groups, written through the codec
    // and read back unchanged
    let schema = id_account_schema();
    let input = vec![
        id_account_row(1, "Hello"),
        id_account_row(2, "World"),
        id_account_row(3, "This is a test!"),
    ];
    let mut writer = RowWriteBuffer::new(id_account_schema(), 10_000);
    writer.append_row(id_account_row(1, "Hello")).unwrap();
    writer.append_row(id_account_row(2, "World")).unwrap();
    writer.append_row(id_account_row(3, "This is a test!")).unwrap();
    writer.close();
    assert_eq!(writer.groups.len(), 1);

    let data = write_groups_to_bytes(&writer.groups, &schema, MESSAGE_TYPE);
    let result = read_rows_from_bytes(data);
    assert_eq!(input, result);
}

#[test]
fn round_trip_three_rows() {
    let schema = id_account_schema();
    let input = vec![
        id_account_row(1, "Hello"),
        id_account_row(2, "World"),
        id_account_row(3, "!"),
    ];
    let groups = vec![vec![
        id_account_row(1, "Hello"),
        id_account_row(2, "World"),
        id_account_row(3, "!"),
    ]];
    let data = write_groups_to_bytes(&groups, &schema, MESSAGE_TYPE);

    // the object begins and ends with the Parquet magic
    assert!(data.len() >= 8);
    assert_eq!(&data[0..4], b"PAR1");
    assert_eq!(&data[data.len() - 4..], b"PAR1");

    let result = read_rows_from_bytes(data);
    assert_eq!(input, result);
}

#[test]
fn column_statistics_bound_the_values() {
    let schema = id_account_schema();
    let group = vec![
        id_account_row(5, "mango"),
        id_account_row(-3, "apple"),
        id_account_row(9, "pear"),
    ];
    let cols = encode_batch(&group, &schema).unwrap();
    match &cols[0] {
        ColumnData::I64Column { values, min, max } => {
            assert_eq!(values, &vec![5i64, -3, 9]);
            assert_eq!(*min, -3);
            assert_eq!(*max, 9);
        },
        _ => panic!("expected an i64 column"),
    }
    match &cols[1] {
        ColumnData::TextColumn { values, min, max } => {
            assert_eq!(values.len(), 3);
            assert_eq!(min, &b"apple".to_vec());
            assert_eq!(max, &b"pear".to_vec());
        },
        _ => panic!("expected a text column"),
    }
}

#[test]
fn unsupported_type_is_reported() {
    let schema = Schema {
        fields: vec![SchemaField {
            name: "mixed".to_string(),
            physical: PhysicalType::Int32,
            converted: ConvertedType::Utf8,
        }],
    };
    let group = vec![Row { fields: vec![("mixed".to_string(), FieldValue::I32(1))] }];
    let err = encode_batch(&group, &schema).unwrap_err();
    match err {
        parquet_ops::errors::OpsError::UnsupportedType { field, converted, physical } => {
            assert_eq!(field, "mixed");
            assert_eq!(converted, ConvertedType::Utf8);
            assert_eq!(physical, PhysicalType::Int32);
        },
        other => panic!("expected an unsupported-type error, got {:?}", other),
    }
}

#[test]
fn columns_decode_back_to_the_rows() {
    let schema = id_account_schema();
    let group = vec![
        id_account_row(10, "alpha"),
        id_account_row(20, "beta"),
        id_account_row(30, "gamma"),
    ];
    let cols = encode_batch(&group, &schema).unwrap();
    let decoded = rows_from_columns(&schema, &cols, 3);
    assert_eq!(decoded, group);
}

#[test]
fn timestamps_and_unsigned_survive_the_transpose() {
    let schema = Schema {
        fields: vec![
            SchemaField {
                name: "seq".to_string(),
                physical: PhysicalType::Int64,
                converted: ConvertedType::Uint64,
            },
            SchemaField {
                name: "at".to_string(),
                physical: PhysicalType::Int64,
                converted: ConvertedType::TimestampMillis,
            },
            SchemaField {
                name: "amount".to_string(),
                physical: PhysicalType::Int32,
                converted: ConvertedType::Int32,
            },
        ],
    };
    let row = |s: u64, t: i64, a: i32| Row {
        fields: vec![
            ("seq".to_string(), FieldValue::U64(s)),
            ("at".to_string(), FieldValue::TsMillis(t)),
            ("amount".to_string(), FieldValue::I32(a)),
        ],
    };
    let group = vec![row(u64::MAX, 1644537600, -5), row(3, 1644537601, 7)];
    let cols = encode_batch(&group, &schema).unwrap();
    let decoded = rows_from_columns(&schema, &cols, 2);
    assert_eq!(decoded, group);
}

const FULL_MESSAGE_TYPE: &str = "
message schema {
    REQUIRED INT64 id;
    REQUIRED BINARY account (UTF8);
    REQUIRED INT32 amount;
    REQUIRED INT64 datetime (TIMESTAMP(MILLIS,true));
    REQUIRED BINARY extra_00 (UTF8);
}
";

#[test]
fn generated_rows_round_trip_through_the_codec() {
    // all four column kinds: plain i64, text, i32 and timestamp columns go
    // through the codec and come back unchanged
    let schema = parquet_ops::gen::get_test_schema(1);
    let group: Vec<Row> = (0..25).map(|i| parquet_ops::gen::test_parquet_row(i, 1)).collect();
    let expected: Vec<Row> = (0..25).map(|i| parquet_ops::gen::test_parquet_row(i, 1)).collect();
    let data = write_groups_to_bytes(&[group], &schema, FULL_MESSAGE_TYPE);

    let reader = SerializedFileReader::new(Bytes::from(data)).unwrap();
    let mut result = Vec::new();
    for row in reader.get_row_iter(None).unwrap() {
        let row = row.unwrap();
        result.push(Row {
            fields: vec![
                ("id".to_string(), FieldValue::I64(row.get_long(0).unwrap())),
                (
                    "account".to_string(),
                    FieldValue::Text(row.get_string(1).unwrap().as_bytes().to_vec()),
                ),
                ("amount".to_string(), FieldValue::I32(row.get_int(2).unwrap())),
                (
                    "datetime".to_string(),
                    FieldValue::TsMillis(row.get_timestamp_millis(3).unwrap()),
                ),
                (
                    "extra_00".to_string(),
                    FieldValue::Text(row.get_string(4).unwrap().as_bytes().to_vec()),
                ),
            ],
        });
    }
    assert_eq!(result, expected);
}

#[test]
fn codec_footer_carries_the_computed_statistics() {
    let schema = id_account_schema();
    let group = vec![
        id_account_row(42, "cherry"),
        id_account_row(-7, "fig"),
        id_account_row(13, "date"),
    ];
    let cols = encode_batch(&group, &schema).unwrap();
    let (our_min, our_max) = match &cols[0] {
        ColumnData::I64Column { min, max, .. } => (*min, *max),
        _ => panic!("expected an i64 column"),
    };
    let data = write_groups_to_bytes(&[group], &schema, MESSAGE_TYPE);
    let reader = SerializedFileReader::new(Bytes::from(data)).unwrap();
    let rg = reader.metadata().row_group(0);
    match rg.column(0).statistics().unwrap() {
        Statistics::Int64(s) => {
            assert_eq!(s.min_opt(), Some(&our_min));
            assert_eq!(s.max_opt(), Some(&our_max));
            assert_eq!(our_min, -7);
            assert_eq!(our_max, 42);
        },
        other => panic!("expected i64 statistics, got {:?}", other),
    }
}
