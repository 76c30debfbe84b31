//! Column encoding: turning a batch of rows into typed column vectors with
//! per-column min/max statistics, and back.
//!
//! For each field the encoder selects a column kind by the field's converted
//! and physical type. Unsigned 64-bit values are reinterpreted as signed;
//! text statistics are lexicographic over the UTF-8 bytes.

use vstd::prelude::*;
use vstd::pervasive::unreached;
use crate::errors::OpsError;
use crate::model::{ConvertedType, FieldValue, PhysicalType, Row, Schema, SchemaField};

verus! {

/// A typed column with statistics computed from its values.
#[derive(Debug)]
pub enum ColumnData {
    I64Column { values: Vec<i64>, min: i64, max: i64 },
    I32Column { values: Vec<i32>, min: i32, max: i32 },
    TextColumn { values: Vec<Vec<u8>>, min: Vec<u8>, max: Vec<u8> },
}

/// Which column kind a supported field encodes to.
pub enum ColKind {
    KindI64,
    KindI32,
    KindText,
}

/// The column kind of a field, per the encoder's type table.
pub open spec fn spec_col_kind(f: SchemaField) -> ColKind {
    match (f.converted, f.physical) {
        (ConvertedType::Int32, PhysicalType::Int32) => ColKind::KindI32,
        (ConvertedType::Plain, PhysicalType::Int32) => ColKind::KindI32,
        (ConvertedType::Utf8, PhysicalType::ByteArray) => ColKind::KindText,
        _ => ColKind::KindI64,
    }
}

/// The signed 64-bit cell a value encodes to. Unsigned values are
/// reinterpreted bit-for-bit.
pub open spec fn spec_cell_i64(v: FieldValue) -> i64 {
    match v {
        FieldValue::I64(x) => x,
        FieldValue::U64(u) => u as i64,
        FieldValue::TsMillis(x) => x,
        _ => 0,
    }
}

/// The signed 32-bit cell a value encodes to.
pub open spec fn spec_cell_i32(v: FieldValue) -> i32 {
    match v {
        FieldValue::I32(x) => x,
        _ => 0,
    }
}

/// The byte-string cell a value encodes to.
pub open spec fn spec_cell_text(v: FieldValue) -> Seq<u8> {
    match v {
        FieldValue::Text(b) => b@,
        _ => Seq::empty(),
    }
}

/// Lexicographic order over byte strings; a prefix precedes its extensions.
pub open spec fn lex_le(a: Seq<u8>, b: Seq<u8>) -> bool
    decreases a.len(),
{
    if a.len() == 0 {
        true
    } else if b.len() == 0 {
        false
    } else if a.first() < b.first() {
        true
    } else if a.first() > b.first() {
        false
    } else {
        lex_le(a.drop_first(), b.drop_first())
    }
}

/// The lexicographic order is total.
pub proof fn lemma_lex_total(a: Seq<u8>, b: Seq<u8>)
    ensures
        lex_le(a, b) || lex_le(b, a),
    decreases a.len(),
{
    if a.len() == 0 || b.len() == 0 {
    } else if a.first() == b.first() {
        lemma_lex_total(a.drop_first(), b.drop_first());
    }
}

/// The lexicographic order is transitive.
pub proof fn lemma_lex_trans(a: Seq<u8>, b: Seq<u8>, c: Seq<u8>)
    requires
        lex_le(a, b),
        lex_le(b, c),
    ensures
        lex_le(a, c),
    decreases a.len(),
{
    if a.len() == 0 {
    } else if b.len() == 0 {
    } else if c.len() == 0 {
    } else {
        if a.first() == b.first() && b.first() == c.first() {
            lemma_lex_trans(a.drop_first(), b.drop_first(), c.drop_first());
        }
    }
}

/// Compare two byte vectors lexicographically.
pub fn lex_le_bytes(a: &Vec<u8>, b: &Vec<u8>) -> (r: bool)
    ensures
        r == lex_le(a@, b@),
{
    let n: usize = if a.len() < b.len() {
        a.len()
    } else {
        b.len()
    };
    let mut i: usize = 0;
    proof {
        assert(a@.skip(0) =~= a@);
        assert(b@.skip(0) =~= b@);
    }
    while i < n
        invariant
            n <= a@.len() && n <= b@.len(),
            n == a@.len() || n == b@.len(),
            0 <= i <= n,
            forall|k: int| 0 <= k < i ==> a@[k] == b@[k],
            lex_le(a@, b@) == lex_le(a@.skip(i as int), b@.skip(i as int)),
            lex_le(b@, a@) == lex_le(b@.skip(i as int), a@.skip(i as int)),
        decreases n - i,
    {
        let ghost ai = a@.skip(i as int);
        let ghost bi = b@.skip(i as int);
        if a[i] < b[i] {
            proof {
                assert(ai.first() < bi.first());
            }
            return true;
        }
        if a[i] > b[i] {
            proof {
                assert(ai.first() > bi.first());
            }
            return false;
        }
        proof {
            assert(ai.drop_first() =~= a@.skip(i + 1));
            assert(bi.drop_first() =~= b@.skip(i + 1));
        }
        i = i + 1;
    }
    proof {
        if a@.len() <= b@.len() {
            assert(a@.skip(i as int).len() == 0);
        } else {
            assert(b@.skip(i as int).len() == 0);
            assert(a@.skip(i as int).len() > 0);
        }
    }
    a.len() <= b.len()
}

/// Copy a byte vector.
pub fn clone_bytes(b: &Vec<u8>) -> (r: Vec<u8>)
    ensures
        r@ == b@,
{
    let r = b.clone();
    proof {
        assert(r@ =~= b@);
    }
    r
}

/// The signed 64-bit cells of a batch at column `idx`.
pub open spec fn spec_i64_values(rows: Seq<Row>, idx: int) -> Seq<i64> {
    Seq::new(rows.len(), |j: int| spec_cell_i64(rows[j].fields@[idx].1))
}

/// The signed 32-bit cells of a batch at column `idx`.
pub open spec fn spec_i32_values(rows: Seq<Row>, idx: int) -> Seq<i32> {
    Seq::new(rows.len(), |j: int| spec_cell_i32(rows[j].fields@[idx].1))
}

/// The byte-string cells of a batch at column `idx`.
pub open spec fn spec_text_values(rows: Seq<Row>, idx: int) -> Seq<Seq<u8>> {
    Seq::new(rows.len(), |j: int| spec_cell_text(rows[j].fields@[idx].1))
}

/// The encoded column holds exactly the cells of the batch at `idx`, and its
/// statistics bound every value and are attained by one.
pub open spec fn spec_column_matches(c: ColumnData, rows: Seq<Row>, idx: int, f: SchemaField) -> bool {
    match spec_col_kind(f) {
        ColKind::KindI64 => match c {
            ColumnData::I64Column { values, min, max } => {
                &&& values@ == spec_i64_values(rows, idx)
                &&& values@.contains(min)
                &&& values@.contains(max)
                &&& forall|k: int| 0 <= k < values@.len() ==> min <= #[trigger] values@[k] <= max
            },
            _ => false,
        },
        ColKind::KindI32 => match c {
            ColumnData::I32Column { values, min, max } => {
                &&& values@ == spec_i32_values(rows, idx)
                &&& values@.contains(min)
                &&& values@.contains(max)
                &&& forall|k: int| 0 <= k < values@.len() ==> min <= #[trigger] values@[k] <= max
            },
            _ => false,
        },
        ColKind::KindText => match c {
            ColumnData::TextColumn { values, min, max } => {
                &&& values@.len() == rows.len()
                &&& forall|j: int|
                    0 <= j < rows.len() ==> (#[trigger] values@[j])@ == spec_text_values(
                        rows,
                        idx,
                    )[j]
                &&& exists|j: int| 0 <= j < values@.len() && min@ == (#[trigger] values@[j])@
                &&& exists|j: int| 0 <= j < values@.len() && max@ == (#[trigger] values@[j])@
                &&& forall|j: int|
                    0 <= j < values@.len() ==> lex_le(min@, (#[trigger] values@[j])@) && lex_le(
                        values@[j]@,
                        max@,
                    )
            },
            _ => false,
        },
    }
}

/// Read the signed 64-bit cell of a value.
fn cell_i64(v: &FieldValue) -> (r: i64)
    requires
        v is I64 || v is U64 || v is TsMillis,
    ensures
        r == spec_cell_i64(*v),
{
    match v {
        FieldValue::I64(x) => *x,
        FieldValue::U64(u) => *u as i64,
        FieldValue::TsMillis(x) => *x,
        _ => unreached(),
    }
}

/// Encode a signed 64-bit column with min/max statistics.
fn encode_i64_column(rows: &Vec<Row>, idx: usize) -> (c: ColumnData)
    requires
        rows@.len() > 0,
        forall|j: int|
            0 <= j < rows@.len() ==> idx < (#[trigger] rows@[j]).fields@.len() && (
            rows@[j].fields@[idx as int].1 is I64 || rows@[j].fields@[idx as int].1 is U64
                || rows@[j].fields@[idx as int].1 is TsMillis),
    ensures
        c matches ColumnData::I64Column { values, min, max } && values@ == spec_i64_values(
            rows@,
            idx as int,
        ) && values@.contains(min) && values@.contains(max) && (forall|k: int|
            0 <= k < values@.len() ==> min <= #[trigger] values@[k] <= max),
{
    let n: usize = rows.len();
    let mut values: Vec<i64> = Vec::new();
    let first = cell_i64(&rows[0].fields[idx].1);
    let mut min: i64 = first;
    let mut max: i64 = first;
    let mut j: usize = 0;
    while j < n
        invariant
            n == rows@.len(),
            0 <= j <= n,
            forall|k: int|
                0 <= k < n ==> idx < (#[trigger] rows@[k]).fields@.len() && (
                rows@[k].fields@[idx as int].1 is I64 || rows@[k].fields@[idx as int].1 is U64
                    || rows@[k].fields@[idx as int].1 is TsMillis),
            values@ == spec_i64_values(rows@, idx as int).take(j as int),
            j > 0 ==> values@.contains(min) && values@.contains(max),
            j == 0 ==> min == spec_cell_i64(rows@[0].fields@[idx as int].1) && max == min,
            forall|k: int| 0 <= k < j ==> min <= #[trigger] values@[k] <= max,
        decreases n - j,
    {
        let x = cell_i64(&rows[j].fields[idx].1);
        if x < min {
            min = x;
        }
        if x > max {
            max = x;
        }
        let ghost prev = values@;
        values.push(x);
        proof {
            assert(values@ =~= spec_i64_values(rows@, idx as int).take(j as int + 1));
            if prev.contains(min) {
                assert(values@[choose|k: int| 0 <= k < prev.len() && prev[k] == min] == min);
            }
            if prev.contains(max) {
                assert(values@[choose|k: int| 0 <= k < prev.len() && prev[k] == max] == max);
            }
            assert(values@[j as int] == x);
        }
        j = j + 1;
    }
    proof {
        assert(values@ =~= spec_i64_values(rows@, idx as int));
    }
    ColumnData::I64Column { values, min, max }
}

/// Read the signed 32-bit cell of a value.
fn cell_i32(v: &FieldValue) -> (r: i32)
    requires
        v is I32,
    ensures
        r == spec_cell_i32(*v),
{
    match v {
        FieldValue::I32(x) => *x,
        _ => unreached(),
    }
}

/// Encode a signed 32-bit column with min/max statistics.
fn encode_i32_column(rows: &Vec<Row>, idx: usize) -> (c: ColumnData)
    requires
        rows@.len() > 0,
        forall|j: int|
            0 <= j < rows@.len() ==> idx < (#[trigger] rows@[j]).fields@.len()
                && rows@[j].fields@[idx as int].1 is I32,
    ensures
        c matches ColumnData::I32Column { values, min, max } && values@ == spec_i32_values(
            rows@,
            idx as int,
        ) && values@.contains(min) && values@.contains(max) && (forall|k: int|
            0 <= k < values@.len() ==> min <= #[trigger] values@[k] <= max),
{
    let n: usize = rows.len();
    let mut values: Vec<i32> = Vec::new();
    let first = cell_i32(&rows[0].fields[idx].1);
    let mut min: i32 = first;
    let mut max: i32 = first;
    let mut j: usize = 0;
    while j < n
        invariant
            n == rows@.len(),
            0 <= j <= n,
            forall|k: int|
                0 <= k < n ==> idx < (#[trigger] rows@[k]).fields@.len()
                    && rows@[k].fields@[idx as int].1 is I32,
            values@ == spec_i32_values(rows@, idx as int).take(j as int),
            j > 0 ==> values@.contains(min) && values@.contains(max),
            j == 0 ==> min == spec_cell_i32(rows@[0].fields@[idx as int].1) && max == min,
            forall|k: int| 0 <= k < j ==> min <= #[trigger] values@[k] <= max,
        decreases n - j,
    {
        let x = cell_i32(&rows[j].fields[idx].1);
        if x < min {
            min = x;
        }
        if x > max {
            max = x;
        }
        let ghost prev = values@;
        values.push(x);
        proof {
            assert(values@ =~= spec_i32_values(rows@, idx as int).take(j as int + 1));
            if prev.contains(min) {
                assert(values@[choose|k: int| 0 <= k < prev.len() && prev[k] == min] == min);
            }
            if prev.contains(max) {
                assert(values@[choose|k: int| 0 <= k < prev.len() && prev[k] == max] == max);
            }
            assert(values@[j as int] == x);
        }
        j = j + 1;
    }
    proof {
        assert(values@ =~= spec_i32_values(rows@, idx as int));
    }
    ColumnData::I32Column { values, min, max }
}

/// Encode a byte-string column with lexicographic min/max statistics.
fn encode_text_column(rows: &Vec<Row>, idx: usize) -> (c: ColumnData)
    requires
        rows@.len() > 0,
        forall|j: int|
            0 <= j < rows@.len() ==> idx < (#[trigger] rows@[j]).fields@.len()
                && rows@[j].fields@[idx as int].1 is Text,
    ensures
        c matches ColumnData::TextColumn { values, min, max } && values@.len() == rows@.len() && (
        forall|j: int|
            0 <= j < rows@.len() ==> (#[trigger] values@[j])@ == spec_text_values(
                rows@,
                idx as int,
            )[j]) && (exists|j: int| 0 <= j < values@.len() && min@ == (#[trigger] values@[j])@) && (
        exists|j: int| 0 <= j < values@.len() && max@ == (#[trigger] values@[j])@) && (forall|j: int|
            0 <= j < values@.len() ==> lex_le(min@, (#[trigger] values@[j])@) && lex_le(
                values@[j]@,
                max@,
            )),
{
    let n: usize = rows.len();
    let mut values: Vec<Vec<u8>> = Vec::new();
    let mut min: Vec<u8> = match &rows[0].fields[idx].1 {
        FieldValue::Text(b) => clone_bytes(b),
        _ => unreached(),
    };
    let mut max: Vec<u8> = clone_bytes(&min);
    let mut j: usize = 0;
    while j < n
        invariant
            n == rows@.len(),
            0 <= j <= n,
            forall|k: int|
                0 <= k < n ==> idx < (#[trigger] rows@[k]).fields@.len()
                    && rows@[k].fields@[idx as int].1 is Text,
            values@.len() == j,
            forall|k: int|
                0 <= k < j ==> (#[trigger] values@[k])@ == spec_text_values(rows@, idx as int)[k],
            j > 0 ==> (exists|k: int| 0 <= k < j && min@ == (#[trigger] values@[k])@) && (exists|
                k: int,
            | 0 <= k < j && max@ == (#[trigger] values@[k])@),
            j == 0 ==> min@ == spec_cell_text(rows@[0].fields@[idx as int].1) && max@ == min@,
            forall|k: int|
                0 <= k < j ==> lex_le(min@, (#[trigger] values@[k])@) && lex_le(values@[k]@, max@),
        decreases n - j,
    {
        let b: Vec<u8> = match &rows[j].fields[idx].1 {
            FieldValue::Text(t) => clone_bytes(t),
            _ => unreached(),
        };
        let ghost bv = b@;
        let ghost om = min@;
        let ghost ox = max@;
        if !lex_le_bytes(&min, &b) {
            proof {
                lemma_lex_total(om, bv);
            }
            min = clone_bytes(&b);
        }
        if !lex_le_bytes(&b, &max) {
            proof {
                lemma_lex_total(bv, ox);
            }
            max = clone_bytes(&b);
        }
        let ghost prev = values@;
        let ghost minv = min@;
        let ghost maxv = max@;
        proof {
            lemma_lex_total(bv, bv);
            assert(lex_le(minv, bv));
            assert(lex_le(bv, maxv));
            assert(minv == om || (minv == bv && lex_le(minv, om)));
            assert(maxv == ox || (maxv == bv && lex_le(ox, maxv)));
        }
        values.push(b);
        proof {
            assert(values@[j as int]@ == spec_text_values(rows@, idx as int)[j as int]);
            assert forall|k: int| 0 <= k < j + 1 implies lex_le(minv, (#[trigger] values@[k])@)
                && lex_le(values@[k]@, maxv) by {
                if k < j {
                    assert(values@[k] == prev[k]);
                    assert(lex_le(om, prev[k]@) && lex_le(prev[k]@, ox));
                    if minv != om {
                        lemma_lex_trans(minv, om, prev[k]@);
                    }
                    if maxv != ox {
                        lemma_lex_trans(prev[k]@, ox, maxv);
                    }
                } else {
                    assert(values@[k]@ == bv);
                }
            }
            if minv == bv {
                assert(values@[j as int]@ == minv);
            } else {
                assert(minv == om && j > 0);
                let k = choose|k: int| 0 <= k < j && om == (#[trigger] prev[k])@;
                assert(values@[k]@ == minv);
            }
            if maxv == bv {
                assert(values@[j as int]@ == maxv);
            } else {
                assert(maxv == ox && j > 0);
                let k = choose|k: int| 0 <= k < j && ox == (#[trigger] prev[k])@;
                assert(values@[k]@ == maxv);
            }
        }
        j = j + 1;
    }
    ColumnData::TextColumn { values, min, max }
}

/// Encode one field of a batch, or report the unsupported type combination.
pub fn encode_column(rows: &Vec<Row>, schema: &Schema, idx: usize) -> (r: Result<
    ColumnData,
    OpsError,
>)
    requires
        crate::model::spec_rows_consistent(rows@, *schema),
        idx < schema.fields@.len(),
        rows@.len() > 0,
    ensures
        match r {
            Ok(c) => crate::model::spec_supported(
                schema.fields@[idx as int].converted,
                schema.fields@[idx as int].physical,
            ) && spec_column_matches(c, rows@, idx as int, schema.fields@[idx as int]),
            Err(e) => {
                &&& !crate::model::spec_supported(
                    schema.fields@[idx as int].converted,
                    schema.fields@[idx as int].physical,
                )
                &&& e matches OpsError::UnsupportedType { field, converted, physical } && field@
                    == schema.fields@[idx as int].name@ && converted
                    == schema.fields@[idx as int].converted && physical
                    == schema.fields@[idx as int].physical
            },
        },
{
    let f = &schema.fields[idx];
    let supported: bool = match (f.converted, f.physical) {
        (ConvertedType::Int64, PhysicalType::Int64) => true,
        (ConvertedType::Uint64, PhysicalType::Int64) => true,
        (ConvertedType::Int32, PhysicalType::Int32) => true,
        (ConvertedType::TimestampMillis, PhysicalType::Int64) => true,
        (ConvertedType::Utf8, PhysicalType::ByteArray) => true,
        (ConvertedType::Plain, PhysicalType::Int64) => true,
        (ConvertedType::Plain, PhysicalType::Int32) => true,
        _ => false,
    };
    if !supported {
        return Err(
            OpsError::UnsupportedType {
                field: f.name.clone(),
                converted: f.converted,
                physical: f.physical,
            },
        );
    }
    proof {
        assert(forall|j: int|
            0 <= j < rows@.len() ==> crate::model::spec_value_matches(
                (#[trigger] rows@[j]).fields@[idx as int].1,
                schema.fields@[idx as int],
            ));
    }
    match (f.converted, f.physical) {
        (ConvertedType::Int32, PhysicalType::Int32) => Ok(encode_i32_column(rows, idx)),
        (ConvertedType::Plain, PhysicalType::Int32) => Ok(encode_i32_column(rows, idx)),
        (ConvertedType::Utf8, PhysicalType::ByteArray) => Ok(encode_text_column(rows, idx)),
        _ => Ok(encode_i64_column(rows, idx)),
    }
}

/// Encode every column of a batch in schema order, or report the first
/// unsupported field.
pub fn encode_batch(rows: &Vec<Row>, schema: &Schema) -> (r: Result<Vec<ColumnData>, OpsError>)
    requires
        crate::model::spec_rows_consistent(rows@, *schema),
        rows@.len() > 0,
    ensures
        match r {
            Ok(cols) => cols@.len() == schema.fields@.len() && forall|i: int|
                0 <= i < schema.fields@.len() ==> spec_column_matches(
                    #[trigger] cols@[i],
                    rows@,
                    i,
                    schema.fields@[i],
                ),
            Err(e) => e matches OpsError::UnsupportedType { field, converted, physical } && exists|
                i: int,
            |
                0 <= i < schema.fields@.len() && (#[trigger] schema.fields@[i]).name@ == field@
                    && schema.fields@[i].converted == converted && schema.fields@[i].physical
                    == physical && !crate::model::spec_supported(converted, physical),
        },
{
    let n: usize = schema.fields.len();
    let mut cols: Vec<ColumnData> = Vec::new();
    let mut i: usize = 0;
    while i < n
        invariant
            n == schema.fields@.len(),
            0 <= i <= n,
            crate::model::spec_rows_consistent(rows@, *schema),
            rows@.len() > 0,
            cols@.len() == i,
            forall|k: int|
                0 <= k < i ==> spec_column_matches(
                    #[trigger] cols@[k],
                    rows@,
                    k,
                    schema.fields@[k],
                ),
        decreases n - i,
    {
        match encode_column(rows, schema, i) {
            Ok(c) => {
                cols.push(c);
            },
            Err(e) => {
                return Err(e);
            },
        }
        i = i + 1;
    }
    Ok(cols)
}

/// The signed 64-bit cell of a column.
pub open spec fn col_i64_at(c: ColumnData, j: int) -> i64 {
    match c {
        ColumnData::I64Column { values, .. } => values@[j],
        _ => 0,
    }
}

/// The signed 32-bit cell of a column.
pub open spec fn col_i32_at(c: ColumnData, j: int) -> i32 {
    match c {
        ColumnData::I32Column { values, .. } => values@[j],
        _ => 0,
    }
}

/// The byte-string cell of a column.
pub open spec fn col_text_at(c: ColumnData, j: int) -> Seq<u8> {
    match c {
        ColumnData::TextColumn { values, .. } => values@[j]@,
        _ => Seq::empty(),
    }
}

/// The value content reconstructed from row `j` of a column, per the
/// field's type.
pub open spec fn spec_decode_val(f: SchemaField, c: ColumnData, j: int) -> crate::model::Val {
    match (f.converted, f.physical) {
        (ConvertedType::Int64, PhysicalType::Int64) => crate::model::Val::VI64(
            col_i64_at(c, j) as int,
        ),
        (ConvertedType::Uint64, PhysicalType::Int64) => crate::model::Val::VU64(
            (col_i64_at(c, j) as u64) as int,
        ),
        (ConvertedType::TimestampMillis, PhysicalType::Int64) => crate::model::Val::VTs(
            col_i64_at(c, j) as int,
        ),
        (ConvertedType::Plain, PhysicalType::Int64) => crate::model::Val::VI64(
            col_i64_at(c, j) as int,
        ),
        (ConvertedType::Int32, PhysicalType::Int32) => crate::model::Val::VI32(
            col_i32_at(c, j) as int,
        ),
        (ConvertedType::Plain, PhysicalType::Int32) => crate::model::Val::VI32(
            col_i32_at(c, j) as int,
        ),
        (ConvertedType::Utf8, PhysicalType::ByteArray) => crate::model::Val::VText(
            col_text_at(c, j),
        ),
        _ => crate::model::Val::VI64(0),
    }
}

/// The column stores the kind the field calls for and has `n` cells.
pub open spec fn spec_column_shape(c: ColumnData, f: SchemaField, n: nat) -> bool {
    match spec_col_kind(f) {
        ColKind::KindI64 => c matches ColumnData::I64Column { values, .. } && values@.len() == n,
        ColKind::KindI32 => c matches ColumnData::I32Column { values, .. } && values@.len() == n,
        ColKind::KindText => c matches ColumnData::TextColumn { values, .. } && values@.len() == n,
    }
}

/// Reconstruct `n` rows from columns, taking names from the schema.
pub fn rows_from_columns(schema: &Schema, cols: &Vec<ColumnData>, n: usize) -> (rows: Vec<Row>)
    requires
        cols@.len() == schema.fields@.len(),
        forall|i: int|
            0 <= i < schema.fields@.len() ==> crate::model::spec_supported(
                (#[trigger] schema.fields@[i]).converted,
                schema.fields@[i].physical,
            ) && spec_column_shape(cols@[i], schema.fields@[i], n as nat),
    ensures
        rows@.len() == n,
        crate::model::spec_rows_consistent(rows@, *schema),
        forall|j: int, i: int|
            0 <= j < n && 0 <= i < schema.fields@.len() ==> #[trigger] crate::model::row_model(
                rows@[j],
            )[i] == (schema.fields@[i].name@, spec_decode_val(schema.fields@[i], cols@[i], j)),
{
    let m: usize = schema.fields.len();
    let mut rows: Vec<Row> = Vec::new();
    let mut j: usize = 0;
    while j < n
        invariant
            m == schema.fields@.len() == cols@.len(),
            0 <= j <= n,
            forall|i: int|
                0 <= i < m ==> crate::model::spec_supported(
                    (#[trigger] schema.fields@[i]).converted,
                    schema.fields@[i].physical,
                ) && spec_column_shape(cols@[i], schema.fields@[i], n as nat),
            rows@.len() == j,
            forall|k: int|
                0 <= k < j ==> crate::model::spec_row_consistent(#[trigger] rows@[k], *schema),
            forall|k: int, i: int|
                0 <= k < j && 0 <= i < m ==> #[trigger] crate::model::row_model(rows@[k])[i] == (
                schema.fields@[i].name@,
                spec_decode_val(schema.fields@[i], cols@[i], k),
            ),
        decreases n - j,
    {
        let mut fields: Vec<(String, FieldValue)> = Vec::new();
        let mut i: usize = 0;
        while i < m
            invariant
                m == schema.fields@.len() == cols@.len(),
                0 <= i <= m,
                0 <= j < n,
                forall|k: int|
                    0 <= k < m ==> crate::model::spec_supported(
                        (#[trigger] schema.fields@[k]).converted,
                        schema.fields@[k].physical,
                    ) && spec_column_shape(cols@[k], schema.fields@[k], n as nat),
                fields@.len() == i,
                forall|k: int|
                    0 <= k < i ==> (#[trigger] fields@[k]).0@ == schema.fields@[k].name@
                        && crate::model::spec_value_matches(fields@[k].1, schema.fields@[k])
                        && crate::model::val_model(fields@[k].1) == spec_decode_val(
                        schema.fields@[k],
                        cols@[k],
                        j as int,
                    ),
            decreases m - i,
        {
            let f = &schema.fields[i];
            let name = f.name.clone();
            let value: FieldValue = match (f.converted, f.physical) {
                (ConvertedType::Int64, PhysicalType::Int64) => match &cols[i] {
                    ColumnData::I64Column { values, .. } => FieldValue::I64(values[j]),
                    _ => unreached(),
                },
                (ConvertedType::Uint64, PhysicalType::Int64) => match &cols[i] {
                    ColumnData::I64Column { values, .. } => FieldValue::U64(values[j] as u64),
                    _ => unreached(),
                },
                (ConvertedType::TimestampMillis, PhysicalType::Int64) => match &cols[i] {
                    ColumnData::I64Column { values, .. } => FieldValue::TsMillis(values[j]),
                    _ => unreached(),
                },
                (ConvertedType::Plain, PhysicalType::Int64) => match &cols[i] {
                    ColumnData::I64Column { values, .. } => FieldValue::I64(values[j]),
                    _ => unreached(),
                },
                (ConvertedType::Int32, PhysicalType::Int32) => match &cols[i] {
                    ColumnData::I32Column { values, .. } => FieldValue::I32(values[j]),
                    _ => unreached(),
                },
                (ConvertedType::Plain, PhysicalType::Int32) => match &cols[i] {
                    ColumnData::I32Column { values, .. } => FieldValue::I32(values[j]),
                    _ => unreached(),
                },
                (ConvertedType::Utf8, PhysicalType::ByteArray) => match &cols[i] {
                    ColumnData::TextColumn { values, .. } => FieldValue::Text(
                        clone_bytes(&values[j]),
                    ),
                    _ => unreached(),
                },
                _ => unreached(),
            };
            fields.push((name, value));
            i = i + 1;
        }
        let row = Row { fields };
        let ghost rm = crate::model::row_model(row);
        proof {
            assert(rm.len() == m);
            assert forall|i2: int| 0 <= i2 < m implies #[trigger] rm[i2] == (
                schema.fields@[i2].name@,
                spec_decode_val(schema.fields@[i2], cols@[i2], j as int),
            ) by {
                assert(rm[i2] == (row.fields@[i2].0@, crate::model::val_model(row.fields@[i2].1)));
            }
            assert(crate::model::spec_row_consistent(row, *schema));
        }
        rows.push(row);
        j = j + 1;
    }
    rows
}

/// Reinterpreting an unsigned 64-bit value as signed and back is lossless.
proof fn lemma_u64_reinterpret(u: u64)
    ensures
        ((u as i64) as u64) == u,
{
    assert(((u as i64) as u64) == u) by (bit_vector);
}

/// Round trip: rows encoded to columns and reconstructed from them keep
/// their entire content — names, types and values.
pub proof fn lemma_column_round_trip(
    schema: Schema,
    rows: Seq<Row>,
    cols: Seq<ColumnData>,
    rows2: Seq<Row>,
)
    requires
        crate::model::spec_rows_consistent(rows, schema),
        cols.len() == schema.fields@.len(),
        forall|i: int|
            0 <= i < cols.len() ==> spec_column_matches(
                #[trigger] cols[i],
                rows,
                i,
                schema.fields@[i],
            ),
        rows2.len() == rows.len(),
        forall|j: int|
            0 <= j < rows2.len() ==> (#[trigger] rows2[j]).fields@.len() == schema.fields@.len(),
        forall|j: int, i: int|
            0 <= j < rows2.len() && 0 <= i < schema.fields@.len()
                ==> #[trigger] crate::model::row_model(rows2[j])[i] == (
                schema.fields@[i].name@,
                spec_decode_val(schema.fields@[i], cols[i], j),
            ),
    ensures
        forall|j: int|
            0 <= j < rows.len() ==> crate::model::row_model(#[trigger] rows2[j])
                == crate::model::row_model(rows[j]),
{
    assert forall|j: int| 0 <= j < rows.len() implies crate::model::row_model(#[trigger] rows2[j])
        == crate::model::row_model(rows[j]) by {
        let m1 = crate::model::row_model(rows2[j]);
        let m2 = crate::model::row_model(rows[j]);
        assert(m1.len() == m2.len());
        assert forall|i: int| 0 <= i < m1.len() implies m1[i] == m2[i] by {
            let f = schema.fields@[i];
            let v = rows[j].fields@[i].1;
            assert(crate::model::spec_value_matches(v, f));
            assert(m2[i] == (rows[j].fields@[i].0@, crate::model::val_model(v)));
            match (f.converted, f.physical) {
                (ConvertedType::Uint64, PhysicalType::Int64) => {
                    let u = v->U64_0;
                    assert(col_i64_at(cols[i], j) == spec_cell_i64(v));
                    lemma_u64_reinterpret(u);
                },
                _ => {
                    assert(col_i64_at(cols[i], j) == spec_cell_i64(v) || col_i32_at(cols[i], j)
                        == spec_cell_i32(v) || col_text_at(cols[i], j) == spec_cell_text(v));
                },
            }
        }
        assert(m1 =~= m2);
    }
}

} // verus!
