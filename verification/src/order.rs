//! Row comparators as first-class values.
//!
//! The merger and the sorter accept any value that can compare two rows,
//! states what the comparison means, and comes with totality and
//! transitivity. The key descriptor provides the stock implementation.

use vstd::prelude::*;
use crate::keys::ParquetKey;
use crate::model::Row;

verus! {

/// A total, transitive "less or equal" over rows.
pub trait RowCmp: Sized {
    /// Rows this comparator can be executed on.
    spec fn row_ok(&self, r: Row) -> bool;

    /// What the executable comparison returns.
    spec fn le_spec(&self, a: Row, b: Row) -> bool;

    /// Compare two rows.
    fn le(&self, a: &Row, b: &Row) -> (r: bool)
        requires
            self.row_ok(*a),
            self.row_ok(*b),
        ensures
            r == self.le_spec(*a, *b),
    ;

    /// The order is total.
    proof fn lemma_total(&self, a: Row, b: Row)
        ensures
            self.le_spec(a, b) || self.le_spec(b, a),
    ;

    /// The order is transitive.
    proof fn lemma_trans(&self, a: Row, b: Row, c: Row)
        requires
            self.le_spec(a, b),
            self.le_spec(b, c),
        ensures
            self.le_spec(a, c),
    ;
}

/// Every element of the sequence can be handled by the comparator.
pub open spec fn spec_rows_ok<C: RowCmp>(c: &C, s: Seq<Row>) -> bool {
    forall|i: int| 0 <= i < s.len() ==> c.row_ok(#[trigger] s[i])
}

/// The sequence is nondecreasing under the comparator.
pub open spec fn spec_sorted<C: RowCmp>(c: &C, s: Seq<Row>) -> bool {
    forall|i: int, j: int| 0 <= i < j < s.len() ==> c.le_spec(#[trigger] s[i], #[trigger] s[j])
}

impl RowCmp for ParquetKey {
    open spec fn row_ok(&self, r: Row) -> bool {
        self.spec_row_keyed(r)
    }

    open spec fn le_spec(&self, a: Row, b: Row) -> bool {
        self.spec_key(a) <= self.spec_key(b)
    }

    fn le(&self, a: &Row, b: &Row) -> (r: bool) {
        self.record_le(a, b)
    }

    proof fn lemma_total(&self, a: Row, b: Row) {
    }

    proof fn lemma_trans(&self, a: Row, b: Row, c: Row) {
    }
}

} // verus!
