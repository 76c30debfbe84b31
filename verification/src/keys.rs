//! Sort-key resolution: mapping a field name to a column index and a typed
//! comparator, and deriving partition predicates from splitter rows.

use vstd::prelude::*;
use vstd::pervasive::unreached;
use vstd::string::StringExecFns;
use crate::errors::OpsError;
use crate::model::{FieldValue, PhysicalType, Row, Schema, SchemaField};

verus! {

/// True when no field of `fields` is named `name`.
pub open spec fn spec_no_match(fields: Seq<SchemaField>, name: Seq<char>) -> bool {
    forall|j: int| 0 <= j < fields.len() ==> (#[trigger] fields[j]).name@ != name
}

/// True when at least two distinct fields of `fields` are named `name`.
pub open spec fn spec_many_matches(fields: Seq<SchemaField>, name: Seq<char>) -> bool {
    exists|i: int, j: int|
        0 <= i < j < fields.len() && (#[trigger] fields[i]).name@ == name
            && (#[trigger] fields[j]).name@ == name
}

/// True when `i` is the position of the unique field named `name`.
pub open spec fn spec_unique_match(fields: Seq<SchemaField>, name: Seq<char>, i: int) -> bool {
    &&& 0 <= i < fields.len()
    &&& fields[i].name@ == name
    &&& forall|j: int| 0 <= j < fields.len() && j != i ==> (#[trigger] fields[j]).name@ != name
}

/// Resolve a field by name within a flat schema.
///
/// Returns the index of the unique field carrying the name; fails with
/// `UnknownField` when no field matches and with `AmbiguousField` when more
/// than one does.
pub fn find_field(schema: &Schema, field_name: &String) -> (r: Result<usize, OpsError>)
    ensures
        match r {
            Ok(i) => spec_unique_match(schema.fields@, field_name@, i as int),
            Err(e) => match e {
                OpsError::UnknownField { name } => name@ == field_name@ && spec_no_match(
                    schema.fields@,
                    field_name@,
                ),
                OpsError::AmbiguousField { name } => name@ == field_name@ && spec_many_matches(
                    schema.fields@,
                    field_name@,
                ),
                _ => false,
            },
        },
{
    let n: usize = schema.fields.len();
    let mut found: Option<usize> = None;
    let mut j: usize = 0;
    while j < n
        invariant
            n == schema.fields@.len(),
            0 <= j <= n,
            match found {
                Some(i) => 0 <= i < j && schema.fields@[i as int].name@ == field_name@ && forall|
                    k: int,
                |
                    0 <= k < j && k != i ==> (#[trigger] schema.fields@[k]).name@ != field_name@,
                None => forall|k: int|
                    0 <= k < j ==> (#[trigger] schema.fields@[k]).name@ != field_name@,
            },
        decreases n - j,
    {
        if schema.fields[j].name == *field_name {
            match found {
                Some(i) => {
                    return Err(OpsError::AmbiguousField { name: field_name.clone() });
                },
                None => {
                    found = Some(j);
                },
            }
        }
        j = j + 1;
    }
    match found {
        Some(i) => Ok(i),
        None => Err(OpsError::UnknownField { name: field_name.clone() }),
    }
}

/// A resolved sort key: the column position and its physical type.
#[derive(Debug)]
pub struct ParquetKey {
    pub name: String,
    pub sort_col: usize,
    pub phys_type: PhysicalType,
}

/// Key fields must store a plain signed integer.
pub open spec fn spec_key_field_ok(f: SchemaField) -> bool {
    match (f.converted, f.physical) {
        (crate::model::ConvertedType::Int64, PhysicalType::Int64) => true,
        (crate::model::ConvertedType::Plain, PhysicalType::Int64) => true,
        (crate::model::ConvertedType::Int32, PhysicalType::Int32) => true,
        (crate::model::ConvertedType::Plain, PhysicalType::Int32) => true,
        _ => false,
    }
}

/// The key value stored at column `col` of a row, as a mathematical integer.
pub open spec fn spec_key_col(r: Row, col: int) -> int {
    if 0 <= col < r.fields@.len() {
        match r.fields@[col].1 {
            FieldValue::I64(x) => x as int,
            FieldValue::I32(x) => x as int,
            _ => 0,
        }
    } else {
        0
    }
}

impl ParquetKey {
    /// A row can be keyed when the key column holds the integer variant
    /// this descriptor was resolved to.
    pub open spec fn spec_row_keyed(&self, r: Row) -> bool {
        &&& self.sort_col < r.fields@.len()
        &&& match self.phys_type {
            PhysicalType::Int64 => r.fields@[self.sort_col as int].1 is I64,
            PhysicalType::Int32 => r.fields@[self.sort_col as int].1 is I32,
            PhysicalType::ByteArray => false,
        }
    }

    /// A single-field splitter row can be keyed at its only column.
    pub open spec fn spec_splitter_keyed(&self, r: Row) -> bool {
        &&& r.fields@.len() >= 1
        &&& match self.phys_type {
            PhysicalType::Int64 => r.fields@[0].1 is I64,
            PhysicalType::Int32 => r.fields@[0].1 is I32,
            PhysicalType::ByteArray => false,
        }
    }

    /// Key of a full row.
    pub open spec fn spec_key(&self, r: Row) -> int {
        spec_key_col(r, self.sort_col as int)
    }

    /// The descriptor fits a schema: it names the unique key column and
    /// carries that column's physical type.
    pub open spec fn spec_wf(&self, s: Schema) -> bool {
        &&& spec_unique_match(s.fields@, self.name@, self.sort_col as int)
        &&& s.fields@[self.sort_col as int].physical == self.phys_type
        &&& spec_key_field_ok(s.fields@[self.sort_col as int])
    }

    /// Resolve a sort key by field name.
    ///
    /// Fails with `UnknownField` or `AmbiguousField` as `find_field` does,
    /// and with `UnsupportedKeyType` when the resolved column does not store
    /// a plain signed integer.
    pub fn new(name: String, schema: &Schema) -> (r: Result<ParquetKey, OpsError>)
        ensures
            match r {
                Ok(pk) => pk.spec_wf(*schema) && pk.name@ == name@,
                Err(e) => match e {
                    OpsError::UnknownField { name: n } => n@ == name@ && spec_no_match(
                        schema.fields@,
                        name@,
                    ),
                    OpsError::AmbiguousField { name: n } => n@ == name@ && spec_many_matches(
                        schema.fields@,
                        name@,
                    ),
                    OpsError::UnsupportedKeyType { physical } => exists|i: int|
                        spec_unique_match(schema.fields@, name@, i) && !spec_key_field_ok(
                            #[trigger] schema.fields@[i],
                        ) && schema.fields@[i].physical == physical,
                    _ => false,
                },
            },
{
        let sort_col: usize = match find_field(schema, &name) {
            Ok(i) => i,
            Err(e) => {
                return Err(e);
            },
        };
        let f = &schema.fields[sort_col];
        let ok: bool = match (f.converted, f.physical) {
            (crate::model::ConvertedType::Int64, PhysicalType::Int64) => true,
            (crate::model::ConvertedType::Plain, PhysicalType::Int64) => true,
            (crate::model::ConvertedType::Int32, PhysicalType::Int32) => true,
            (crate::model::ConvertedType::Plain, PhysicalType::Int32) => true,
            _ => false,
        };
        if !ok {
            return Err(OpsError::UnsupportedKeyType { physical: f.physical });
        }
        Ok(ParquetKey { name, sort_col, phys_type: f.physical })
    }

    /// Read the key of a full row.
    pub fn key_of(&self, r: &Row) -> (k: i64)
        requires
            self.spec_row_keyed(*r),
        ensures
            k as int == self.spec_key(*r),
    {
        match &r.fields[self.sort_col].1 {
            FieldValue::I64(x) => *x,
            FieldValue::I32(x) => *x as i64,
            _ => unreached(),
        }
    }

    /// Read the key of a single-field splitter row.
    pub fn splitter_key_of(&self, r: &Row) -> (k: i64)
        requires
            self.spec_splitter_keyed(*r),
        ensures
            k as int == spec_key_col(*r, 0),
    {
        match &r.fields[0].1 {
            FieldValue::I64(x) => *x,
            FieldValue::I32(x) => *x as i64,
            _ => unreached(),
        }
    }

    /// Compare two full rows by their key column.
    pub fn record_le(&self, a: &Row, b: &Row) -> (r: bool)
        requires
            self.spec_row_keyed(*a),
            self.spec_row_keyed(*b),
        ensures
            r == (self.spec_key(*a) <= self.spec_key(*b)),
    {
        self.key_of(a) <= self.key_of(b)
    }

    /// Compare two single-field sample rows by their only column.
    pub fn partition_le(&self, a: &Row, b: &Row) -> (r: bool)
        requires
            self.spec_splitter_keyed(*a),
            self.spec_splitter_keyed(*b),
        ensures
            r == (spec_key_col(*a, 0) <= spec_key_col(*b, 0)),
    {
        self.splitter_key_of(a) <= self.splitter_key_of(b)
    }

    /// The single-field message-type text used to project the key column
    /// when sampling for partition splitters.
    pub fn get_partition_message_schema(&self) -> (r: String)
        requires
            !(self.phys_type is ByteArray),
        ensures
            r@ == "message schema { REQUIRED "@ + spec_type_label(self.phys_type) + " "@
                + self.name@ + "; }"@,
    {
        let mut r = String::new();
        r.append("message schema { REQUIRED ");
        match self.phys_type {
            PhysicalType::Int64 => r.append("INT64"),
            PhysicalType::Int32 => r.append("INT32"),
            PhysicalType::ByteArray => unreached(),
        }
        r.append(" ");
        r.append(self.name.as_str());
        r.append("; }");
        r
    }

    /// The partition predicate: does `row`'s key fall at or below the
    /// splitter's key?
    pub fn partition_filter(&self, splitter: &Row, row: &Row) -> (r: bool)
        requires
            self.spec_splitter_keyed(*splitter),
            self.spec_row_keyed(*row),
        ensures
            r == (self.spec_key(*row) <= spec_key_col(*splitter, 0)),
    {
        self.key_of(row) <= self.splitter_key_of(splitter)
    }
}

/// The message-type label of a key's physical type.
pub open spec fn spec_type_label(p: PhysicalType) -> Seq<char> {
    match p {
        PhysicalType::Int64 => "INT64"@,
        PhysicalType::Int32 => "INT32"@,
        PhysicalType::ByteArray => Seq::empty(),
    }
}

/// The partition predicates of two adjacent splitters jointly select a
/// contiguous key range: a row passes the upper filter and fails the lower
/// one exactly when its key lies in the half-open interval between the two
/// splitter keys.
pub proof fn lemma_partition_filter_range(pk: ParquetKey, lo: Row, hi: Row, r: Row)
    requires
        pk.spec_splitter_keyed(lo),
        pk.spec_splitter_keyed(hi),
        pk.spec_row_keyed(r),
    ensures
        (pk.spec_key(r) <= spec_key_col(hi, 0) && !(pk.spec_key(r) <= spec_key_col(lo, 0)))
            <==> (spec_key_col(lo, 0) < pk.spec_key(r) <= spec_key_col(hi, 0)),
{
}

} // verus!
