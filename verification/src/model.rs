//! Data model: typed field values, rows, and flat schemas.
//!
//! A row is an ordered sequence of named, typed fields, positionally aligned
//! with a schema. Only flat schemas with required fields are in scope.

use vstd::prelude::*;

verus! {

/// Physical storage type of a column.
#[derive(Clone, Copy, PartialEq, Eq, Structural, Debug)]
pub enum PhysicalType {
    Int32,
    Int64,
    ByteArray,
}

/// Logical annotation over a physical type. `Plain` means no annotation.
#[derive(Clone, Copy, PartialEq, Eq, Structural, Debug)]
pub enum ConvertedType {
    Int64,
    Uint64,
    Int32,
    TimestampMillis,
    Utf8,
    Plain,
}

/// One field of a flat schema.
#[derive(Debug)]
pub struct SchemaField {
    pub name: String,
    pub physical: PhysicalType,
    pub converted: ConvertedType,
}

/// An ordered list of required, non-nested fields.
#[derive(Debug)]
pub struct Schema {
    pub fields: Vec<SchemaField>,
}

/// A typed field value. Text carries UTF-8 bytes.
#[derive(Debug)]
pub enum FieldValue {
    I32(i32),
    I64(i64),
    U64(u64),
    TsMillis(i64),
    Text(Vec<u8>),
}

/// A row: named values, positionally aligned with a schema.
#[derive(Debug)]
pub struct Row {
    pub fields: Vec<(String, FieldValue)>,
}

/// The mathematical content of a field value.
pub enum Val {
    VI32(int),
    VI64(int),
    VU64(int),
    VTs(int),
    VText(Seq<u8>),
}

/// The mathematical content of a field value.
pub open spec fn val_model(v: FieldValue) -> Val {
    match v {
        FieldValue::I32(x) => Val::VI32(x as int),
        FieldValue::I64(x) => Val::VI64(x as int),
        FieldValue::U64(x) => Val::VU64(x as int),
        FieldValue::TsMillis(x) => Val::VTs(x as int),
        FieldValue::Text(b) => Val::VText(b@),
    }
}

/// The mathematical content of a row: a sequence of (name, value) pairs.
pub open spec fn row_model(r: Row) -> Seq<(Seq<char>, Val)> {
    r.fields@.map_values(|p: (String, FieldValue)| (p.0@, val_model(p.1)))
}

/// Does the encoder support this combination of converted and physical type?
pub open spec fn spec_supported(converted: ConvertedType, physical: PhysicalType) -> bool {
    match (converted, physical) {
        (ConvertedType::Int64, PhysicalType::Int64) => true,
        (ConvertedType::Uint64, PhysicalType::Int64) => true,
        (ConvertedType::Int32, PhysicalType::Int32) => true,
        (ConvertedType::TimestampMillis, PhysicalType::Int64) => true,
        (ConvertedType::Utf8, PhysicalType::ByteArray) => true,
        (ConvertedType::Plain, PhysicalType::Int64) => true,
        (ConvertedType::Plain, PhysicalType::Int32) => true,
        _ => false,
    }
}

/// Which value variant a supported field stores.
pub open spec fn spec_value_matches(v: FieldValue, f: SchemaField) -> bool {
    match (f.converted, f.physical) {
        (ConvertedType::Int64, PhysicalType::Int64) => v is I64,
        (ConvertedType::Uint64, PhysicalType::Int64) => v is U64,
        (ConvertedType::Int32, PhysicalType::Int32) => v is I32,
        (ConvertedType::TimestampMillis, PhysicalType::Int64) => v is TsMillis,
        (ConvertedType::Utf8, PhysicalType::ByteArray) => v is Text,
        (ConvertedType::Plain, PhysicalType::Int64) => v is I64,
        (ConvertedType::Plain, PhysicalType::Int32) => v is I32,
        _ => false,
    }
}

/// A row is consistent with a schema when it has one value per field,
/// each value stores the variant the field calls for, and each value
/// carries the field's name.
pub open spec fn spec_row_consistent(r: Row, s: Schema) -> bool {
    &&& r.fields@.len() == s.fields@.len()
    &&& forall|i: int|
        0 <= i < r.fields@.len() ==> (#[trigger] r.fields@[i]).0@ == s.fields@[i].name@
            && spec_value_matches(r.fields@[i].1, s.fields@[i])
}

/// All rows of a sequence are consistent with the schema.
pub open spec fn spec_rows_consistent(rows: Seq<Row>, s: Schema) -> bool {
    forall|j: int| 0 <= j < rows.len() ==> spec_row_consistent(#[trigger] rows[j], s)
}

impl Schema {
    /// Number of fields.
    pub fn len(&self) -> (n: usize)
        ensures
            n == self.fields@.len(),
    {
        self.fields.len()
    }
}

/// Check one value against one schema field.
pub fn value_matches(v: &FieldValue, f: &SchemaField) -> (r: bool)
    ensures
        r == spec_value_matches(*v, *f),
{
    match (f.converted, f.physical) {
        (ConvertedType::Int64, PhysicalType::Int64) => matches!(v, FieldValue::I64(_)),
        (ConvertedType::Uint64, PhysicalType::Int64) => matches!(v, FieldValue::U64(_)),
        (ConvertedType::Int32, PhysicalType::Int32) => matches!(v, FieldValue::I32(_)),
        (ConvertedType::TimestampMillis, PhysicalType::Int64) => matches!(
            v,
            FieldValue::TsMillis(_),
        ),
        (ConvertedType::Utf8, PhysicalType::ByteArray) => matches!(v, FieldValue::Text(_)),
        (ConvertedType::Plain, PhysicalType::Int64) => matches!(v, FieldValue::I64(_)),
        (ConvertedType::Plain, PhysicalType::Int32) => matches!(v, FieldValue::I32(_)),
        _ => false,
    }
}

/// Check one row against the schema.
pub fn row_consistent(r: &Row, s: &Schema) -> (res: bool)
    ensures
        res == spec_row_consistent(*r, *s),
{
    if r.fields.len() != s.fields.len() {
        return false;
    }
    let n: usize = r.fields.len();
    let mut i: usize = 0;
    while i < n
        invariant
            n == r.fields@.len() == s.fields@.len(),
            0 <= i <= n,
            forall|k: int|
                0 <= k < i ==> (#[trigger] r.fields@[k]).0@ == s.fields@[k].name@
                    && spec_value_matches(r.fields@[k].1, s.fields@[k]),
        decreases n - i,
    {
        if !(r.fields[i].0 == s.fields[i].name) {
            return false;
        }
        if !value_matches(&r.fields[i].1, &s.fields[i]) {
            return false;
        }
        i = i + 1;
    }
    true
}

/// Check every row of a batch against the schema.
pub fn rows_consistent(rows: &Vec<Row>, s: &Schema) -> (res: bool)
    ensures
        res == spec_rows_consistent(rows@, *s),
{
    let n: usize = rows.len();
    let mut j: usize = 0;
    while j < n
        invariant
            n == rows@.len(),
            0 <= j <= n,
            forall|k: int| 0 <= k < j ==> spec_row_consistent(#[trigger] rows@[k], *s),
        decreases n - j,
    {
        if !row_consistent(&rows[j], s) {
            return false;
        }
        j = j + 1;
    }
    true
}

impl vstd::std_specs::cmp::PartialEqSpecImpl for FieldValue {
    open spec fn obeys_eq_spec() -> bool {
        true
    }

    open spec fn eq_spec(&self, other: &FieldValue) -> bool {
        val_model(*self) == val_model(*other)
    }
}

impl PartialEq for FieldValue {
    fn eq(&self, other: &FieldValue) -> (r: bool) {
        match (self, other) {
            (FieldValue::I32(a), FieldValue::I32(b)) => a == b,
            (FieldValue::I64(a), FieldValue::I64(b)) => a == b,
            (FieldValue::U64(a), FieldValue::U64(b)) => a == b,
            (FieldValue::TsMillis(a), FieldValue::TsMillis(b)) => a == b,
            (FieldValue::Text(a), FieldValue::Text(b)) => {
                let r = vec_u8_eq(a, b);
                proof {
                    if a@ == b@ {
                        assert(val_model(*self) == val_model(*other));
                    }
                }
                r
            },
            _ => false,
        }
    }
}

/// Byte-wise equality of two byte vectors.
pub fn vec_u8_eq(a: &Vec<u8>, b: &Vec<u8>) -> (r: bool)
    ensures
        r == (a@ == b@),
{
    if a.len() != b.len() {
        return false;
    }
    let n: usize = a.len();
    let mut i: usize = 0;
    while i < n
        invariant
            n == a@.len() == b@.len(),
            0 <= i <= n,
            forall|k: int| 0 <= k < i ==> a@[k] == b@[k],
        decreases n - i,
    {
        if a[i] != b[i] {
            return false;
        }
        i = i + 1;
    }
    proof {
        assert(a@ =~= b@);
    }
    true
}

impl vstd::std_specs::cmp::PartialEqSpecImpl for Row {
    open spec fn obeys_eq_spec() -> bool {
        true
    }

    open spec fn eq_spec(&self, other: &Row) -> bool {
        row_model(*self) == row_model(*other)
    }
}

impl PartialEq for Row {
    fn eq(&self, other: &Row) -> (r: bool) {
        if self.fields.len() != other.fields.len() {
            proof {
                assert(row_model(*self).len() != row_model(*other).len());
            }
            return false;
        }
        let n: usize = self.fields.len();
        let mut i: usize = 0;
        while i < n
            invariant
                n == self.fields@.len() == other.fields@.len(),
                0 <= i <= n,
                forall|k: int|
                    0 <= k < i ==> (#[trigger] self.fields@[k]).0@ == other.fields@[k].0@
                        && val_model(self.fields@[k].1) == val_model(other.fields@[k].1),
            decreases n - i,
        {
            if !(self.fields[i].0 == other.fields[i].0) {
                proof {
                    assert(row_model(*self)[i as int] != row_model(*other)[i as int]);
                }
                return false;
            }
            if !(self.fields[i].1 == other.fields[i].1) {
                proof {
                    assert(row_model(*self)[i as int] != row_model(*other)[i as int]);
                }
                return false;
            }
            i = i + 1;
        }
        proof {
            assert(row_model(*self) =~= row_model(*other));
        }
        true
    }
}

} // verus!
