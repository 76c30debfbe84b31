//! The producer side of the row-write pipeline, as a pure state machine.
//!
//! `RowWriteBuffer` accumulates rows and cuts them into row-groups: when the
//! buffer reaches `max_row_group` rows it is flushed as one group, in
//! first-in-first-out order. The unverified gateway drains `groups` to the
//! actual writer task; here the groups sequence stands for everything that
//! was handed over, in order.

use vstd::prelude::*;
use vstd::arithmetic::div_mod::lemma_fundamental_div_mod_converse;
use crate::errors::OpsError;
use crate::model::{Row, Schema};

verus! {

/// Bounded accumulator cutting appended rows into row-groups.
pub struct RowWriteBuffer {
    pub max_row_group: usize,
    pub buffer: Vec<Row>,
    pub groups: Vec<Vec<Row>>,
    pub closed: bool,
    pub schema: Schema,
}

/// One append step: push the row; when the buffer reaches the group size,
/// move it to the groups as one row-group.
pub open spec fn spec_append_step(
    groups: Seq<Seq<Row>>,
    buffer: Seq<Row>,
    row: Row,
    max: nat,
) -> (Seq<Seq<Row>>, Seq<Row>) {
    let b2 = buffer.push(row);
    if b2.len() == max {
        (groups.push(b2), Seq::empty())
    } else {
        (groups, b2)
    }
}

/// Appending a sequence of rows one at a time.
pub open spec fn spec_append_all(
    groups: Seq<Seq<Row>>,
    buffer: Seq<Row>,
    rows: Seq<Row>,
    max: nat,
) -> (Seq<Seq<Row>>, Seq<Row>)
    decreases rows.len(),
{
    if rows.len() == 0 {
        (groups, buffer)
    } else {
        let st = spec_append_step(groups, buffer, rows.first(), max);
        spec_append_all(st.0, st.1, rows.drop_first(), max)
    }
}

impl RowWriteBuffer {
    /// Everything handed over so far, as row-group contents in order.
    pub open spec fn spec_groups(&self) -> Seq<Seq<Row>> {
        self.groups@.map_values(|g: Vec<Row>| g@)
    }

    /// All rows this buffer has accepted, in order: the flushed groups
    /// followed by what is still buffered.
    pub open spec fn appended(&self) -> Seq<Row> {
        self.spec_groups().flatten() + self.buffer@
    }

    /// Structural invariant: a positive group size and a buffer that has
    /// not yet reached it.
    pub open spec fn inv(&self) -> bool {
        &&& self.max_row_group >= 1
        &&& self.buffer@.len() < self.max_row_group
    }

    /// The configuration a method call leaves untouched.
    pub open spec fn same_config(&self, other: &RowWriteBuffer) -> bool {
        &&& self.max_row_group == other.max_row_group
        &&& self.schema == other.schema
    }

    /// Open a fresh buffer for the given schema and group size.
    pub fn new(schema: Schema, group_size: usize) -> (w: RowWriteBuffer)
        requires
            group_size >= 1,
        ensures
            w.inv(),
            w.max_row_group == group_size,
            w.schema == schema,
            !w.closed,
            w.spec_groups() =~= Seq::<Seq<Row>>::empty(),
            w.buffer@ =~= Seq::<Row>::empty(),
    {
        let w = RowWriteBuffer {
            max_row_group: group_size,
            buffer: Vec::new(),
            groups: Vec::new(),
            closed: false,
            schema,
        };
        proof {
            assert(w.spec_groups() =~= Seq::<Seq<Row>>::empty());
        }
        w
    }

    /// How many more rows fit before the next row-group is cut.
    pub fn remaining_space(&self) -> (n: usize)
        requires
            self.inv(),
        ensures
            n == self.max_row_group - self.buffer@.len(),
    {
        self.max_row_group - self.buffer.len()
    }

    /// Accept one row; cut a row-group when the buffer fills up.
    ///
    /// Fails with `ClosedWriter`, changing nothing, exactly when the buffer
    /// was already closed.
    pub fn append_row(&mut self, row: Row) -> (r: Result<(), OpsError>)
        requires
            old(self).inv(),
        ensures
            final(self).inv(),
            final(self).same_config(old(self)),
            final(self).closed == old(self).closed,
            match r {
                Ok(()) => !old(self).closed && (final(self).spec_groups(), final(self).buffer@)
                    == spec_append_step(
                    old(self).spec_groups(),
                    old(self).buffer@,
                    row,
                    old(self).max_row_group as nat,
                ) && final(self).appended() == old(self).appended().push(row),
                Err(e) => old(self).closed && e is ClosedWriter && *final(self) == *old(self),
            },
    {
        if self.closed {
            return Err(OpsError::ClosedWriter);
        }
        let ghost old_groups = self.spec_groups();
        let ghost old_buffer = self.buffer@;
        self.buffer.push(row);
        if self.buffer.len() == self.max_row_group {
            let mut full: Vec<Row> = Vec::new();
            core::mem::swap(&mut full, &mut self.buffer);
            self.groups.push(full);
            proof {
                assert(self.spec_groups() =~= old_groups.push(old_buffer.push(row)));
                old_groups.lemma_flatten_push(old_buffer.push(row));
                assert(self.appended() =~= old_groups.flatten() + old_buffer.push(row));
                assert(old(self).appended().push(row) =~= old_groups.flatten() + old_buffer.push(
                    row,
                ));
            }
        } else {
            proof {
                assert(self.spec_groups() =~= old_groups);
                assert(self.appended() =~= old(self).appended().push(row));
            }
        }
        Ok(())
    }

    /// Accept a whole row-group at once. The buffer must be empty; an empty
    /// group is ignored. Fails with `ClosedWriter`, changing nothing,
    /// exactly when the buffer was already closed.
    pub fn append_row_group(&mut self, rows: Vec<Row>) -> (r: Result<(), OpsError>)
        requires
            old(self).inv(),
            old(self).buffer@.len() == 0,
        ensures
            final(self).inv(),
            final(self).same_config(old(self)),
            final(self).closed == old(self).closed,
            final(self).buffer@ == old(self).buffer@,
            match r {
                Ok(()) => !old(self).closed && final(self).spec_groups() == (if rows@.len() > 0 {
                    old(self).spec_groups().push(rows@)
                } else {
                    old(self).spec_groups()
                }) && final(self).appended() == old(self).appended() + rows@,
                Err(e) => old(self).closed && e is ClosedWriter && *final(self) == *old(self),
            },
    {
        if self.closed {
            return Err(OpsError::ClosedWriter);
        }
        if rows.len() == 0 {
            proof {
                assert(self.appended() =~= self.appended() + rows@);
            }
            return Ok(());
        }
        let ghost old_groups = self.spec_groups();
        let ghost rows_view = rows@;
        self.groups.push(rows);
        proof {
            assert(self.spec_groups() =~= old_groups.push(rows_view));
            old_groups.lemma_flatten_push(rows_view);
            assert(self.appended() =~= old(self).appended() + rows_view);
        }
        Ok(())
    }

    /// Hand over whatever is buffered as one row-group; an empty buffer
    /// sends nothing. Fails with `ClosedWriter`, changing nothing, exactly
    /// when the buffer was already closed.
    pub fn flush(&mut self) -> (r: Result<(), OpsError>)
        requires
            old(self).inv(),
        ensures
            final(self).inv(),
            final(self).same_config(old(self)),
            final(self).closed == old(self).closed,
            final(self).appended() == old(self).appended(),
            match r {
                Ok(()) => !old(self).closed && final(self).buffer@.len() == 0 && final(self).spec_groups() == (if old(self).buffer@.len() > 0 {
                    old(self).spec_groups().push(old(self).buffer@)
                } else {
                    old(self).spec_groups()
                }),
                Err(e) => old(self).closed && e is ClosedWriter && *final(self) == *old(self),
            },
    {
        if self.closed {
            return Err(OpsError::ClosedWriter);
        }
        if self.buffer.len() == 0 {
            return Ok(());
        }
        let ghost old_groups = self.spec_groups();
        let ghost old_buffer = self.buffer@;
        let mut full: Vec<Row> = Vec::new();
        core::mem::swap(&mut full, &mut self.buffer);
        self.groups.push(full);
        proof {
            assert(self.spec_groups() =~= old_groups.push(old_buffer));
            old_groups.lemma_flatten_push(old_buffer);
            assert(self.appended() =~= old(self).appended());
        }
        Ok(())
    }

    /// Close the buffer: flush any buffered rows, then refuse further
    /// appends. Closing an already-closed buffer changes nothing.
    pub fn close(&mut self)
        requires
            old(self).inv(),
        ensures
            final(self).inv(),
            final(self).same_config(old(self)),
            final(self).closed,
            final(self).appended() == old(self).appended(),
            final(self).buffer@.len() == 0 || old(self).closed,
            old(self).closed ==> *final(self) == *old(self),
            !old(self).closed ==> final(self).spec_groups() == (if old(self).buffer@.len() > 0 {
                old(self).spec_groups().push(old(self).buffer@)
            } else {
                old(self).spec_groups()
            }),
    {
        if self.closed {
            return ;
        }
        match self.flush() {
            Ok(()) => {},
            Err(_) => {},
        }
        self.closed = true;
    }
}

/// Counting argument for the append state machine: starting from a buffer
/// holding fewer rows than one group, the number of groups grows by one for
/// every `max` rows accepted, and the remainder stays in the buffer.
proof fn lemma_append_all_counts(
    groups: Seq<Seq<Row>>,
    buffer: Seq<Row>,
    rows: Seq<Row>,
    max: nat,
)
    requires
        max >= 1,
        buffer.len() < max,
    ensures
        ({
            let st = spec_append_all(groups, buffer, rows, max);
            &&& st.1.len() < max
            &&& st.0.len() >= groups.len()
            &&& (st.0.len() - groups.len()) * max + st.1.len() == buffer.len() + rows.len()
        }),
    decreases rows.len(),
{
    if rows.len() == 0 {
        let st = spec_append_all(groups, buffer, rows, max);
        assert(st == (groups, buffer));
        assert((st.0.len() - groups.len()) * max + st.1.len() == buffer.len() + rows.len())
            by (nonlinear_arith)
            requires
                st.0.len() == groups.len(),
                st.1.len() == buffer.len(),
                rows.len() == 0,
        ;
    } else {
        let st1 = spec_append_step(groups, buffer, rows.first(), max);
        lemma_append_all_counts(st1.0, st1.1, rows.drop_first(), max);
        let st = spec_append_all(groups, buffer, rows, max);
        assert(st == spec_append_all(st1.0, st1.1, rows.drop_first(), max));
        assert(rows.drop_first().len() == rows.len() - 1);
        assert((st.0.len() - st1.0.len()) * max + st.1.len() == st1.1.len() + rows.drop_first().len());
        if buffer.push(rows.first()).len() == max {
            assert(st1.0.len() == groups.len() + 1 && st1.1.len() == 0);
            assert(buffer.len() == max - 1);
            assert((st.0.len() - groups.len()) * max == (st.0.len() - st1.0.len()) * max + max)
                by (nonlinear_arith)
                requires
                    st1.0.len() == groups.len() + 1,
            ;
            assert((st.0.len() - groups.len()) * max + st.1.len() == buffer.len() + rows.len());
        } else {
            assert(st1.0.len() == groups.len() && st1.1.len() == buffer.len() + 1);
            assert((st.0.len() - groups.len()) * max + st.1.len() == buffer.len() + rows.len());
        }
    }
}

/// Row-group arithmetic: a fresh buffer that takes `rows` one at a time
/// through `append_row` and is then closed has produced exactly
/// `ceil(|rows| / max)` row-groups — the flushed groups plus one more for
/// a non-empty final buffer.
pub proof fn lemma_row_group_count(rows: Seq<Row>, max: nat)
    requires
        max >= 1,
    ensures
        ({
            let st = spec_append_all(Seq::empty(), Seq::empty(), rows, max);
            let closed_groups: int = if st.1.len() > 0 {
                st.0.len() as int + 1
            } else {
                st.0.len() as int
            };
            closed_groups == (rows.len() + max - 1) as int / (max as int)
        }),
{
    lemma_append_all_counts(Seq::empty(), Seq::empty(), rows, max);
    let st = spec_append_all(Seq::<Seq<Row>>::empty(), Seq::<Row>::empty(), rows, max);
    let q = st.0.len() as int;
    let r = st.1.len() as int;
    let m = max as int;
    let n = rows.len() as int;
    assert(q * m + r == n);
    if r == 0 {
        if q == 0 {
            assert((n + m - 1) / m == 0) by {
                lemma_fundamental_div_mod_converse(n + m - 1, m, 0, m - 1);
            }
        } else {
            assert(n + m - 1 == (q - 1) * m + m + m - 1) by (nonlinear_arith)
                requires
                    q * m + r == n,
                    r == 0,
            ;
            assert((n + m - 1) / m == q) by {
                lemma_fundamental_div_mod_converse(n + m - 1, m, q, m - 1);
            }
        }
    } else {
        assert(n + m - 1 == (q + 1) * m + (r - 1)) by (nonlinear_arith)
            requires
                q * m + r == n,
        ;
        assert((n + m - 1) / m == q + 1) by {
            lemma_fundamental_div_mod_converse(n + m - 1, m, q + 1, r - 1);
        }
    }
}

} // verus!
