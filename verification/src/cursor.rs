//! A lookahead-1 cursor over a sequence of rows.
//!
//! `RowIterExt` delivers rows in source order and exposes the head without
//! consuming it. The unverified gateway loads rows from a Parquet source and
//! hands them to this cursor; every algorithm of the library consumes rows
//! through it.

use vstd::prelude::*;
use crate::buffer::RowWriteBuffer;
use crate::errors::OpsError;
use crate::model::{Row, Schema};

verus! {

/// Lookahead-1 cursor: the next undelivered row, if any, is `rows[0]`.
pub struct RowIterExt {
    pub rows: Vec<Row>,
    pub schema: Schema,
}

impl RowIterExt {
    /// The rows not yet delivered, in delivery order.
    pub open spec fn pending(&self) -> Seq<Row> {
        self.rows@
    }

    /// Open a cursor over rows that were read from a source in file order.
    pub fn new(schema: Schema, rows: Vec<Row>) -> (it: RowIterExt)
        ensures
            it.pending() == rows@,
            it.schema == schema,
    {
        RowIterExt { rows, schema }
    }

    /// The schema of the source.
    pub fn schema(&self) -> (s: &Schema)
        ensures
            *s == self.schema,
    {
        &self.schema
    }

    /// Peek at the next row without consuming it.
    pub fn head(&self) -> (h: Option<&Row>)
        ensures
            match h {
                Some(r) => self.pending().len() > 0 && *r == self.pending()[0],
                None => self.pending().len() == 0,
            },
    {
        if self.rows.len() > 0 {
            Some(&self.rows[0])
        } else {
            None
        }
    }

    /// Deliver the head and report whether the cursor is now terminal.
    pub fn update_head(&mut self) -> (r: (Row, bool))
        requires
            old(self).pending().len() > 0,
        ensures
            r.0 == old(self).pending()[0],
            final(self).pending() == old(self).pending().drop_first(),
            r.1 == (final(self).pending().len() == 0),
            final(self).schema == old(self).schema,
    {
        let row = self.rows.remove(0);
        proof {
            assert(self.rows@ =~= old(self).rows@.drop_first());
        }
        let terminal = self.rows.len() == 0;
        (row, terminal)
    }

    /// Deliver the head, or fail with `Exhausted` exactly when the cursor
    /// is already terminal.
    pub fn advance(&mut self) -> (r: Result<(Row, bool), OpsError>)
        ensures
            final(self).schema == old(self).schema,
            match r {
                Ok(p) => old(self).pending().len() > 0 && p.0 == old(self).pending()[0]
                    && final(self).pending() == old(self).pending().drop_first()
                    && p.1 == (final(self).pending().len() == 0),
                Err(e) => old(self).pending().len() == 0 && e is Exhausted
                    && *final(self) == *old(self),
            },
    {
        if self.rows.len() == 0 {
            return Err(OpsError::Exhausted);
        }
        Ok(self.update_head())
    }

    /// Take up to `max_rows` rows, including the current head; `None` at
    /// end of stream.
    pub fn take(&mut self, max_rows: u64) -> (r: Option<Vec<Row>>)
        requires
            max_rows >= 1,
        ensures
            final(self).schema == old(self).schema,
            match r {
                Some(v) => {
                    let k = if max_rows <= old(self).pending().len() {
                        max_rows as int
                    } else {
                        old(self).pending().len() as int
                    };
                    &&& old(self).pending().len() > 0
                    &&& v@ == old(self).pending().take(k)
                    &&& final(self).pending() == old(self).pending().skip(k)
                },
                None => old(self).pending().len() == 0 && *final(self) == *old(self),
            },
    {
        if self.rows.len() == 0 {
            return None;
        }
        let ghost orig = self.rows@;
        let mut out: Vec<Row> = Vec::new();
        while out.len() < usize::MAX && (out.len() as u64) < max_rows && self.rows.len() > 0
            invariant
                max_rows >= 1,
                out@.len() <= max_rows,
                out@ + self.rows@ == orig,
                out@ == orig.take(out@.len() as int),
                self.schema == old(self).schema,
            decreases self.rows@.len(),
        {
            let row = self.rows.remove(0);
            proof {
                assert(out@.push(row) + self.rows@ =~= orig);
                assert(out@.push(row) =~= orig.take(out@.len() as int + 1));
            }
            out.push(row);
        }
        proof {
            assert(self.rows@ =~= orig.skip(out@.len() as int));
        }
        Some(out)
    }

    /// Feed every remaining row to the buffer, in order, and terminate.
    pub fn drain(&mut self, writer: &mut RowWriteBuffer)
        requires
            old(writer).inv(),
            !old(writer).closed,
        ensures
            final(writer).inv(),
            final(writer).same_config(old(writer)),
            !final(writer).closed,
            final(writer).appended() == old(writer).appended() + old(self).pending(),
            final(self).pending().len() == 0,
            final(self).schema == old(self).schema,
    {
        while self.rows.len() > 0
            invariant
                writer.inv(),
                writer.same_config(old(writer)),
                !writer.closed,
                writer.appended() + self.rows@ == old(writer).appended() + old(self).pending(),
                self.schema == old(self).schema,
            decreases self.rows@.len(),
        {
            let ghost before = writer.appended();
            let (row, _terminal) = self.update_head();
            match writer.append_row(row) {
                Ok(()) => {},
                Err(_) => {},
            }
            proof {
                assert(writer.appended() + self.rows@ =~= before + seq![row] + self.rows@);
                assert(before + seq![row] + self.rows@ =~= old(writer).appended()
                    + old(self).pending());
            }
        }
        proof {
            assert(writer.appended() =~= writer.appended() + self.rows@);
        }
    }
}

} // verus!
