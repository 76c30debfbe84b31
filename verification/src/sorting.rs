//! Sorting: single-pass in-memory sort, sample-based range partitioning,
//! and the two-phase external sort built from them.

use vstd::prelude::*;
use vstd::multiset::Multiset;
use crate::buffer::RowWriteBuffer;
use crate::cursor::RowIterExt;
use crate::errors::OpsError;
use crate::keys::{spec_key_col, ParquetKey};
use crate::model::Row;
use crate::order::{spec_rows_ok, spec_sorted, RowCmp};

verus! {

broadcast use {vstd::multiset::group_multiset_axioms, vstd::seq_lib::group_to_multiset_ensures};

/// Upper bound on the number of rows a single in-memory sort block holds.
pub const MAX_SORT_BLOCK: u64 = 1_000_000;

/// Inputs smaller than this many bytes are sorted in a single pass.
pub const MAX_SIZE_SIMPLE_SORT: u64 = 2_000_000_000;

/// Number of partitions the external sort splits its input into.
pub const SORT_PARTITIONS: usize = 3;

/// Number of rows sampled to pick the partition splitters.
pub const SAMPLE_SIZE: usize = 1000;

/// Sort the rows in place under the comparator.
///
/// The result is sorted and holds exactly the rows that were given, as a
/// multiset.
pub fn sort_rows<C: RowCmp>(rows: &mut Vec<Row>, cmp: &C)
    requires
        spec_rows_ok(cmp, old(rows)@),
    ensures
        final(rows)@.len() == old(rows)@.len(),
        spec_sorted(cmp, final(rows)@),
        final(rows)@.to_multiset() == old(rows)@.to_multiset(),
        spec_rows_ok(cmp, final(rows)@),
{
    let n: usize = rows.len();
    let ghost orig = rows@;
    let mut i: usize = 1;
    if n < 2 {
        return ;
    }
    while i < n
        invariant
            2 <= n == rows@.len(),
            1 <= i <= n,
            rows@.to_multiset() == orig.to_multiset(),
            spec_rows_ok(cmp, rows@),
            spec_sorted(cmp, rows@.take(i as int)),
        decreases n - i,
    {
        let ghost before = rows@;
        let x = rows.remove(i);
        let ghost mid = rows@;
        let mut j: usize = 0;
        while j < i && cmp.le(&rows[j], &x)
            invariant
                0 <= j <= i < n,
                n == rows@.len() + 1,
                rows@ == mid,
                cmp.row_ok(x),
                spec_rows_ok(cmp, rows@),
                forall|k: int| 0 <= k < j ==> cmp.le_spec(#[trigger] rows@[k], x),
            decreases i - j,
        {
            j = j + 1;
        }
        rows.insert(j, x);
        proof {
            // multiset preserved: removing then reinserting the same row
            assert(before.contains(before[i as int]));
            assert(mid.to_multiset() == before.to_multiset().remove(x));
            assert(rows@.to_multiset() == mid.to_multiset().insert(x));
            assert(rows@.to_multiset() =~= before.to_multiset());
            // element availability for row_ok
            assert forall|k: int| 0 <= k < rows@.len() implies cmp.row_ok(#[trigger] rows@[k]) by {
                if k < j {
                    assert(rows@[k] == mid[k]);
                } else if k == j {
                } else {
                    assert(rows@[k] == mid[k - 1]);
                }
            }
            // the prefix one longer is sorted again
            let pre = before.take(i as int);
            let now = rows@.take(i as int + 1);
            assert(mid.take(i as int) =~= pre);
            assert(now =~= pre.insert(j as int, x));
            if (j as int) < i {
                cmp.lemma_total(pre[j as int], x);
                assert(cmp.le_spec(x, pre[j as int]));
            }
            assert forall|a: int, b: int| 0 <= a < b < now.len() implies cmp.le_spec(
                #[trigger] now[a],
                #[trigger] now[b],
            ) by {
                let jj = j as int;
                if a < jj && b < jj {
                    assert(cmp.le_spec(pre[a], pre[b]));
                } else if a < jj && b == jj {
                    assert(now[a] == mid[a] && rows@[a] == mid[a]);
                    assert(cmp.le_spec(rows@[a], x));
                } else if a < jj && b > jj {
                    assert(cmp.le_spec(pre[a], pre[b - 1]));
                } else if a == jj {
                    if b == jj + 1 && jj < i {
                        assert(cmp.le_spec(x, pre[jj]));
                    } else {
                        assert(cmp.le_spec(x, pre[jj]));
                        cmp.lemma_trans(x, pre[jj], pre[b - 1]);
                    }
                } else {
                    assert(cmp.le_spec(pre[a - 1], pre[b - 1]));
                }
            }
        }
        i = i + 1;
    }
    proof {
        assert(rows@.take(n as int) =~= rows@);
    }
}

/// The multiset union of a sequence of row batches.
pub open spec fn batches_ms(parts: Seq<Vec<Row>>) -> Multiset<Row>
    decreases parts.len(),
{
    if parts.len() == 0 {
        Multiset::empty()
    } else {
        parts[0]@.to_multiset().add(batches_ms(parts.drop_first()))
    }
}

/// Which partition a row belongs to: the first splitter whose key is at
/// least the row's key, or the partition after the last splitter.
pub open spec fn spec_route(pk: ParquetKey, splitters: Seq<Row>, r: Row) -> int
    decreases splitters.len(),
{
    if splitters.len() == 0 {
        0
    } else if pk.spec_key(r) <= spec_key_col(splitters[0], 0) {
        0
    } else {
        1 + spec_route(pk, splitters.drop_first(), r)
    }
}

/// The route index is within bounds, and brackets the row's key between the
/// neighbouring splitter keys.
pub proof fn lemma_route_bounds(pk: ParquetKey, splitters: Seq<Row>, r: Row)
    ensures
        0 <= spec_route(pk, splitters, r) <= splitters.len(),
        spec_route(pk, splitters, r) < splitters.len() ==> pk.spec_key(r) <= spec_key_col(
            splitters[spec_route(pk, splitters, r)],
            0,
        ),
        spec_route(pk, splitters, r) > 0 ==> pk.spec_key(r) > spec_key_col(
            splitters[spec_route(pk, splitters, r) - 1],
            0,
        ),
    decreases splitters.len(),
{
    if splitters.len() == 0 {
    } else if pk.spec_key(r) <= spec_key_col(splitters[0], 0) {
    } else {
        lemma_route_bounds(pk, splitters.drop_first(), r);
    }
}

/// Rows routed to an earlier partition have keys no larger than rows routed
/// to a later one, provided the splitter keys are nondecreasing.
pub proof fn lemma_route_ordered(pk: ParquetKey, splitters: Seq<Row>, r1: Row, r2: Row)
    requires
        forall|a: int, b: int|
            0 <= a < b < splitters.len() ==> spec_key_col(#[trigger] splitters[a], 0)
                <= spec_key_col(#[trigger] splitters[b], 0),
        spec_route(pk, splitters, r1) < spec_route(pk, splitters, r2),
    ensures
        pk.spec_key(r1) <= pk.spec_key(r2),
{
    lemma_route_bounds(pk, splitters, r1);
    lemma_route_bounds(pk, splitters, r2);
    let i = spec_route(pk, splitters, r1);
    let j = spec_route(pk, splitters, r2);
    if i < j - 1 {
        assert(spec_key_col(splitters[i], 0) <= spec_key_col(splitters[j - 1], 0));
    }
}

/// Find the partition of one row.
fn route_index(pk: &ParquetKey, splitters: &Vec<Row>, r: &Row) -> (i: usize)
    requires
        pk.spec_row_keyed(*r),
        forall|j: int| 0 <= j < splitters@.len() ==> pk.spec_splitter_keyed(#[trigger] splitters@[j]),
    ensures
        i == spec_route(*pk, splitters@, *r),
        i <= splitters@.len(),
{
    let n: usize = splitters.len();
    let mut i: usize = 0;
    proof {
        assert(splitters@.skip(0) =~= splitters@);
    }
    while i < n && !pk.partition_filter(&splitters[i], r)
        invariant
            n == splitters@.len(),
            0 <= i <= n,
            pk.spec_row_keyed(*r),
            forall|j: int|
                0 <= j < splitters@.len() ==> pk.spec_splitter_keyed(#[trigger] splitters@[j]),
            spec_route(*pk, splitters@, *r) == i + spec_route(*pk, splitters@.skip(i as int), *r),
        decreases n - i,
    {
        proof {
            let s = splitters@.skip(i as int);
            assert(s[0] == splitters@[i as int]);
            assert(s.drop_first() =~= splitters@.skip(i as int + 1));
        }
        i = i + 1;
    }
    proof {
        let s = splitters@.skip(i as int);
        if i < n {
            assert(s[0] == splitters@[i as int]);
            assert(spec_route(*pk, s, *r) == 0);
        } else {
            assert(s.len() == 0);
        }
    }
    i
}

/// Route every row of a block to its partition.
///
/// Produces one batch per key range — one more than there are splitters.
/// Each batch holds, in block order, exactly the rows the partition
/// predicate assigns to it: the multiset of batch `i` is the block's rows
/// whose route index is `i`.
pub fn route_block(rows: Vec<Row>, splitters: &Vec<Row>, pk: &ParquetKey) -> (parts: Vec<Vec<Row>>)
    requires
        splitters@.len() < usize::MAX,
        forall|k: int| 0 <= k < rows@.len() ==> pk.spec_row_keyed(#[trigger] rows@[k]),
        forall|j: int| 0 <= j < splitters@.len() ==> pk.spec_splitter_keyed(#[trigger] splitters@[j]),
    ensures
        parts@.len() == splitters@.len() + 1,
        forall|i: int|
            0 <= i < parts@.len() ==> (#[trigger] parts@[i])@.to_multiset()
                == rows@.to_multiset().filter(|r: Row| spec_route(*pk, splitters@, r) == i),
{
    let p: usize = splitters.len() + 1;
    let mut parts: Vec<Vec<Row>> = Vec::new();
    let mut i: usize = 0;
    while i < p
        invariant
            0 <= i <= p,
            parts@.len() == i,
            forall|k: int| 0 <= k < i ==> (#[trigger] parts@[k])@.len() == 0,
        decreases p - i,
    {
        parts.push(Vec::new());
        i = i + 1;
    }
    proof {
        assert forall|k: int|
            0 <= k < parts@.len() implies (#[trigger] parts@[k])@.to_multiset()
            == rows@.take(0).to_multiset().filter(|r: Row| spec_route(*pk, splitters@, r) == k) by {
            lemma_empty_row_ms(parts@[k]@);
            lemma_empty_row_ms(rows@.take(0));
            assert(rows@.take(0).to_multiset().filter(
                |r: Row| spec_route(*pk, splitters@, r) == k,
            ) =~= Multiset::<Row>::empty());
        }
    }
    let n: usize = rows.len();
    let ghost all = rows@;
    let mut rest = rows;
    while rest.len() > 0
        invariant
            parts@.len() == p == splitters@.len() + 1,
            forall|k: int| 0 <= k < all.len() ==> pk.spec_row_keyed(#[trigger] all[k]),
            forall|j: int|
                0 <= j < splitters@.len() ==> pk.spec_splitter_keyed(#[trigger] splitters@[j]),
            rest@.len() <= all.len(),
            rest@ == all.skip(all.len() - rest@.len()),
            forall|k: int|
                0 <= k < parts@.len() ==> (#[trigger] parts@[k])@.to_multiset() == all.take(
                    all.len() - rest@.len(),
                ).to_multiset().filter(|r: Row| spec_route(*pk, splitters@, r) == k),
        decreases rest@.len(),
    {
        let ghost done = all.take(all.len() - rest@.len());
        let ghost rest_before = rest@;
        let r = rest.remove(0);
        proof {
            assert(rest@ =~= rest_before.drop_first());
            assert(rest@ =~= all.skip(all.len() - rest@.len()));
            assert(all[all.len() - rest_before.len()] == r);
            assert(pk.spec_row_keyed(r));
        }
        let idx = route_index(pk, splitters, &r);
        let ghost parts_before = parts@;
        let mut part = parts.remove(idx);
        let ghost part_before = part@;
        part.push(r);
        parts.insert(idx, part);
        proof {
            assert(parts@ =~= parts_before.update(idx as int, part));
            let done2 = all.take(all.len() - rest@.len());
            assert(done2 =~= done.push(r));
            assert(done2.to_multiset() == done.to_multiset().insert(r));
            assert(part@.to_multiset() == part_before.to_multiset().insert(r));
            assert forall|k: int|
                0 <= k < parts@.len() implies (#[trigger] parts@[k])@.to_multiset()
                == done2.to_multiset().filter(|r2: Row| spec_route(*pk, splitters@, r2) == k) by {
                let pred = |r2: Row| spec_route(*pk, splitters@, r2) == k;
                if k == idx as int {
                    assert(parts@[k] == part);
                    assert(pred(r));
                    assert(done2.to_multiset().filter(pred) =~= done.to_multiset().filter(
                        pred,
                    ).insert(r));
                } else {
                    assert(parts@[k] == parts_before[k]);
                    assert(!(|r2: Row| spec_route(*pk, splitters@, r2) == k)(r));
                    assert(done2.to_multiset().filter(pred) =~= done.to_multiset().filter(pred));
                }
            }
        }
    }
    proof {
        assert(all.take(all.len() as int) =~= all);
    }
    parts
}

/// An empty row sequence has the empty multiset.
proof fn lemma_empty_row_ms(s: Seq<Row>)
    requires
        s.len() == 0,
    ensures
        s.to_multiset() == Multiset::<Row>::empty(),
{
    assert(s.to_multiset() =~= Multiset::<Row>::empty());
}

/// Two sorted sequences concatenate to a sorted sequence when every element
/// of the first is no larger than every element of the second.
proof fn lemma_sorted_join<C: RowCmp>(c: &C, a: Seq<Row>, b: Seq<Row>)
    requires
        spec_sorted(c, a),
        spec_sorted(c, b),
        forall|i: int, j: int|
            0 <= i < a.len() && 0 <= j < b.len() ==> c.le_spec(#[trigger] a[i], #[trigger] b[j]),
    ensures
        spec_sorted(c, a + b),
{
    let ab = a + b;
    assert forall|i: int, j: int| 0 <= i < j < ab.len() implies c.le_spec(
        #[trigger] ab[i],
        #[trigger] ab[j],
    ) by {
        if j < a.len() {
            assert(c.le_spec(a[i], a[j]));
        } else if i >= a.len() {
            assert(c.le_spec(b[i - a.len()], b[j - a.len()]));
        } else {
            assert(c.le_spec(a[i], b[j - a.len()]));
        }
    }
}

/// Sort an input that fits in one block, as a single row-group.
///
/// Sorts all pending rows of the cursor in memory, hands them to the write
/// buffer as one row-group, and closes the buffer. The rows appended by the
/// call are sorted under the comparator and are exactly the input's rows.
/// Fails with `InputTooLarge`, writing nothing, exactly when the input holds
/// more rows than one sort block.
pub fn sort_simple<C: RowCmp>(input: RowIterExt, writer: &mut RowWriteBuffer, cmp: &C) -> (r:
    Result<(), OpsError>)
    requires
        old(writer).inv(),
        !old(writer).closed,
        old(writer).buffer@.len() == 0,
        spec_rows_ok(cmp, input.pending()),
    ensures
        final(writer).inv(),
        final(writer).same_config(old(writer)),
        match r {
            Ok(()) => {
                let out = final(writer).appended().skip(old(writer).appended().len() as int);
                &&& input.pending().len() <= MAX_SORT_BLOCK
                &&& final(writer).closed
                &&& final(writer).appended() == old(writer).appended() + out
                &&& spec_sorted(cmp, out)
                &&& out.to_multiset() == input.pending().to_multiset()
            },
            Err(e) => {
                &&& e is InputTooLarge
                &&& input.pending().len() > MAX_SORT_BLOCK
                &&& *final(writer) == *old(writer)
            },
        },
{
    let mut input = input;
    let ghost pend0 = input.pending();
    if input.rows.len() as u64 > MAX_SORT_BLOCK {
        return Err(OpsError::InputTooLarge);
    }
    let ghost app0 = writer.appended();
    match input.take(MAX_SORT_BLOCK) {
        None => {
            writer.close();
            proof {
                assert(writer.appended().skip(app0.len() as int) =~= Seq::<Row>::empty());
                assert(writer.appended() =~= app0 + writer.appended().skip(app0.len() as int));
                lemma_empty_row_ms(Seq::<Row>::empty());
                lemma_empty_row_ms(pend0);
            }
            Ok(())
        },
        Some(mut data) => {
            proof {
                assert(data@ =~= pend0);
            }
            sort_rows(&mut data, cmp);
            let ghost sorted_view = data@;
            match writer.append_row_group(data) {
                Ok(()) => {},
                Err(_) => {},
            }
            writer.close();
            proof {
                assert(writer.appended() =~= app0 + sorted_view);
                assert(writer.appended().skip(app0.len() as int) =~= sorted_view);
            }
            Ok(())
        },
    }
}

/// Pick partition splitters from a sample of key rows.
///
/// Sorts the sample by its single key column and takes every
/// `|sample| / (p - 1)`-th element, so the splitter keys are nondecreasing
/// and every splitter is drawn from the sample. Returns
/// `|sample| / (|sample| / (p - 1))` splitters; with `|sample|` a multiple
/// of `p - 1` that is exactly `p - 1`.
pub fn partitioning(sample: Vec<Row>, pk: &ParquetKey, num_partition: usize) -> (r: Vec<Row>)
    requires
        2 <= num_partition,
        num_partition - 1 <= sample@.len(),
        sample@.len() < usize::MAX / 2,
        forall|j: int|
            0 <= j < sample@.len() ==> pk.spec_splitter_keyed(#[trigger] sample@[j]) && (
            #[trigger] sample@[j]).fields@.len() == 1,
    ensures
        r@.len() == sample@.len() as int / (sample@.len() as int / (num_partition - 1)),
        r@.len() <= sample@.len(),
        forall|j: int| 0 <= j < r@.len() ==> pk.spec_splitter_keyed(#[trigger] r@[j]),
        forall|a: int, b: int|
            0 <= a < b < r@.len() ==> spec_key_col(#[trigger] r@[a], 0) <= spec_key_col(
                #[trigger] r@[b],
                0,
            ),
        forall|j: int| 0 <= j < r@.len() ==> sample@.to_multiset().count(#[trigger] r@[j]) > 0,
{
    let pk0 = ParquetKey { name: pk.name.clone(), sort_col: 0, phys_type: pk.phys_type };
    let mut sorted = sample;
    proof {
        assert forall|j: int| 0 <= j < sorted@.len() implies pk0.spec_row_keyed(
            #[trigger] sorted@[j],
        ) by {
            assert(pk.spec_splitter_keyed(sorted@[j]));
        }
    }
    sort_rows(&mut sorted, &pk0);
    let ghost sv = sorted@;
    proof {
        assert forall|j: int| 0 <= j < sv.len() implies pk.spec_splitter_keyed(#[trigger] sv[j])
            && sv[j].fields@.len() == 1 by {
            assert(sv.to_multiset().contains(sv[j]));
            assert(sample@.to_multiset().contains(sv[j]));
            assert(sample@.contains(sv[j]));
        }
    }
    let n: usize = sorted.len();
    let step: usize = n / (num_partition - 1);
    proof {
        assert(step >= 1) by {
            vstd::arithmetic::div_mod::lemma_div_non_zero(n as int, (num_partition - 1) as int);
        }
    }
    let mut result: Vec<Row> = Vec::new();
    let mut rest = sorted;
    let mut pos: usize = 0;
    while rest.len() > 0
        invariant
            n == sv.len() < usize::MAX / 2,
            1 <= step <= n,
            0 <= pos <= n,
            rest@ == sv.skip(pos as int),
            result@.len() == pos as int / step as int,
            forall|j: int|
                0 <= j < sv.len() ==> pk.spec_splitter_keyed(#[trigger] sv[j])
                    && sv[j].fields@.len() == 1,
            spec_sorted(&pk0, sv),
            forall|idx: int| 0 <= idx < result@.len() ==> #[trigger] result@[idx] == sv[(idx + 1)
                * step - 1],
        decreases rest@.len(),
    {
        let ghost rest_before = rest@;
        let r = rest.remove(0);
        proof {
            assert(rest@ =~= rest_before.drop_first());
            assert(rest@ =~= sv.skip(pos as int + 1));
            assert(r == sv[pos as int]);
        }
        let ghost q = pos as int / step as int;
        let ghost rr = pos as int % step as int;
        proof {
            vstd::arithmetic::div_mod::lemma_fundamental_div_mod(pos as int, step as int);
        }
        if (pos + 1) % step == 0 {
            proof {
                if rr + 1 < step as int {
                    vstd::arithmetic::div_mod::lemma_fundamental_div_mod_converse(
                        pos as int + 1,
                        step as int,
                        q,
                        rr + 1,
                    );
                    assert(false);
                }
                assert(rr == step as int - 1);
                assert(pos as int + 1 == (q + 1) * (step as int)) by (nonlinear_arith)
                    requires
                        pos as int == q * (step as int) + rr,
                        rr == step as int - 1,
                ;
                vstd::arithmetic::div_mod::lemma_fundamental_div_mod_converse(
                    pos as int + 1,
                    step as int,
                    q + 1,
                    0,
                );
                assert((pos as int + 1) / step as int == q + 1);
                assert((q + 1) * step as int - 1 == pos as int);
            }
            result.push(r);
        } else {
            proof {
                if rr + 1 == step as int {
                    assert(pos as int + 1 == (q + 1) * (step as int)) by (nonlinear_arith)
                        requires
                            pos as int == q * (step as int) + rr,
                            rr == step as int - 1,
                    ;
                    vstd::arithmetic::div_mod::lemma_fundamental_div_mod_converse(
                        pos as int + 1,
                        step as int,
                        q + 1,
                        0,
                    );
                    assert(false);
                }
                vstd::arithmetic::div_mod::lemma_fundamental_div_mod_converse(
                    pos as int + 1,
                    step as int,
                    q,
                    rr + 1,
                );
                assert((pos as int + 1) / step as int == q);
            }
        }
        pos = pos + 1;
    }
    proof {
        assert(pos == n);
        let m = result@.len() as int;
        let s = step as int;
        assert(m == n as int / s);
        assert(m * s + n as int % s == n as int) by {
            vstd::arithmetic::div_mod::lemma_fundamental_div_mod(n as int, s);
        }
        assert(m * s <= n) by {
            vstd::arithmetic::div_mod::lemma_mod_division_less_than_divisor(n as int, s);
        }
        assert(m <= n) by (nonlinear_arith)
            requires
                m * s <= n,
                s >= 1,
                m >= 0,
        ;
        assert forall|a: int, b: int| 0 <= a < b < m implies spec_key_col(#[trigger] result@[a], 0)
            <= spec_key_col(#[trigger] result@[b], 0) by {
            assert(0 <= (a + 1) * s - 1 && (a + 1) * s - 1 < (b + 1) * s - 1 && (b + 1) * s - 1
                < n) by (nonlinear_arith)
                requires
                    0 <= a < b < m,
                    s >= 1,
                    m * s <= n,
            ;
            assert(pk0.le_spec(sv[(a + 1) * s - 1], sv[(b + 1) * s - 1]));
        }
        assert forall|j: int| 0 <= j < m implies sample@.to_multiset().count(#[trigger] result@[j])
            > 0 by {
            assert((j + 1) * s - 1 < n && (j + 1) * s - 1 >= 0) by (nonlinear_arith)
                requires
                    0 <= j < m,
                    s >= 1,
                    m * s <= n,
            ;
            assert(sv.contains(sv[(j + 1) * s - 1]));
            assert(sv.to_multiset().count(result@[j]) > 0);
        }
    }
    result
}

/// Partition an input into key ranges, block by block.
///
/// Reads the input in blocks of `block_size` rows, sorts each block, and
/// routes each row to the partition its key falls in. Batch `i` of the
/// result holds exactly the input rows whose route index is `i`.
pub fn sort_ms_stage_1(
    input: RowIterExt,
    splitters: &Vec<Row>,
    pk: &ParquetKey,
    block_size: u64,
) -> (parts: Vec<Vec<Row>>)
    requires
        block_size >= 1,
        splitters@.len() < usize::MAX,
        forall|k: int| 0 <= k < input.pending().len() ==> pk.spec_row_keyed(#[trigger] input.pending()[k]),
        forall|j: int| 0 <= j < splitters@.len() ==> pk.spec_splitter_keyed(#[trigger] splitters@[j]),
    ensures
        parts@.len() == splitters@.len() + 1,
        forall|i: int|
            0 <= i < parts@.len() ==> (#[trigger] parts@[i])@.to_multiset()
                == input.pending().to_multiset().filter(
                |r: Row| spec_route(*pk, splitters@, r) == i,
            ),
        forall|i: int, k: int|
            0 <= i < parts@.len() && 0 <= k < parts@[i]@.len() ==> pk.spec_row_keyed(
                #[trigger] parts@[i]@[k],
            ) && spec_route(*pk, splitters@, parts@[i]@[k]) == i,
{
    let p: usize = splitters.len() + 1;
    let mut parts: Vec<Vec<Row>> = Vec::new();
    let mut i: usize = 0;
    while i < p
        invariant
            0 <= i <= p,
            parts@.len() == i,
            forall|k: int| 0 <= k < i ==> (#[trigger] parts@[k])@.len() == 0,
        decreases p - i,
    {
        parts.push(Vec::new());
        i = i + 1;
    }
    let ghost pend0 = input.pending();
    let mut input = input;
    proof {
        assert(input.pending() =~= pend0.skip(0));
        lemma_empty_row_ms(pend0.take(0));
        assert forall|k: int|
            0 <= k < parts@.len() implies (#[trigger] parts@[k])@.to_multiset() == pend0.take(
            0,
        ).to_multiset().filter(|r: Row| spec_route(*pk, splitters@, r) == k) by {
            lemma_empty_row_ms(parts@[k]@);
            assert(pend0.take(0).to_multiset().filter(
                |r: Row| spec_route(*pk, splitters@, r) == k,
            ) =~= Multiset::<Row>::empty());
        }
    }
    while input.rows.len() > 0
        invariant
            parts@.len() == p == splitters@.len() + 1,
            block_size >= 1,
            forall|k: int| 0 <= k < pend0.len() ==> pk.spec_row_keyed(#[trigger] pend0[k]),
            forall|j: int|
                0 <= j < splitters@.len() ==> pk.spec_splitter_keyed(#[trigger] splitters@[j]),
            input.pending().len() <= pend0.len(),
            input.pending() == pend0.skip(pend0.len() - input.pending().len()),
            forall|k: int|
                0 <= k < parts@.len() ==> (#[trigger] parts@[k])@.to_multiset() == pend0.take(
                    pend0.len() - input.pending().len(),
                ).to_multiset().filter(|r: Row| spec_route(*pk, splitters@, r) == k),
        decreases input.pending().len(),
    {
        let ghost pend_before = input.pending();
        let ghost done_before = pend0.take(pend0.len() - pend_before.len());
        let mut block: Vec<Row> = match input.take(block_size) {
            Some(b) => b,
            None => vstd::pervasive::unreached(),
        };
        let ghost bk = block@.len() as int;
        let ghost orig_block = pend_before.take(bk);
        proof {
            assert(block@ =~= pend_before.take(bk));
            assert(input.pending() =~= pend0.skip(pend0.len() - input.pending().len()));
            assert forall|k: int| 0 <= k < block@.len() implies pk.spec_row_keyed(
                #[trigger] block@[k],
            ) by {
                assert(block@[k] == pend0[pend0.len() - pend_before.len() + k]);
            }
        }
        sort_rows(&mut block, pk);
        proof {
            assert forall|k: int| 0 <= k < block@.len() implies pk.spec_row_keyed(
                #[trigger] block@[k],
            ) by {
                assert(block@.to_multiset().contains(block@[k]));
                assert(pend_before.take(bk).to_multiset().contains(block@[k]));
                assert(pend_before.take(bk).contains(block@[k]));
            }
        }
        let ghost block_view = block@;
        let mut bparts = route_block(block, splitters, pk);
        let ghost bp0 = bparts@;
        let ghost parts_start = parts@;
        let mut i: usize = 0;
        while i < p
            invariant
                parts@.len() == p == bp0.len(),
                0 <= i <= p,
                bparts@ == bp0.skip(i as int),
                forall|k: int|
                    0 <= k < i ==> (#[trigger] parts@[k])@.to_multiset()
                        == parts_start[k]@.to_multiset().add(bp0[k]@.to_multiset()),
                forall|k: int| i <= k < p ==> #[trigger] parts@[k] == parts_start[k],
            decreases p - i,
        {
            let ghost bparts_before = bparts@;
            let mut bp = bparts.remove(0);
            let ghost parts_before = parts@;
            let mut part = parts.remove(i);
            let ghost part_view = part@;
            part.append(&mut bp);
            proof {
                vstd::seq_lib::lemma_multiset_commutative(part_view, bp0[i as int]@);
            }
            parts.insert(i, part);
            proof {
                assert(bparts@ =~= bp0.skip(i as int + 1));
                assert(bp0.skip(i as int)[0] == bp0[i as int]);
                assert(parts@ =~= parts_before.update(i as int, part));
                assert(part_view == parts_start[i as int]@);
                assert forall|k: int|
                    0 <= k < i + 1 implies (#[trigger] parts@[k])@.to_multiset()
                    == parts_start[k]@.to_multiset().add(bp0[k]@.to_multiset()) by {
                    if k < i {
                        assert(parts@[k] == parts_before[k]);
                    }
                }
            }
            i = i + 1;
        }
        proof {
            let done_after = pend0.take(pend0.len() - input.pending().len());
            assert(done_after =~= done_before + orig_block);
            vstd::seq_lib::lemma_multiset_commutative(done_before, orig_block);
            assert(block_view.to_multiset() == orig_block.to_multiset());
            assert forall|k: int|
                0 <= k < parts@.len() implies (#[trigger] parts@[k])@.to_multiset()
                == done_after.to_multiset().filter(|r: Row| spec_route(*pk, splitters@, r) == k) by {
                let pred = |r: Row| spec_route(*pk, splitters@, r) == k;
                assert(parts@[k]@.to_multiset() == parts_start[k]@.to_multiset().add(
                    bp0[k]@.to_multiset(),
                ));
                assert(bp0[k]@.to_multiset() == block_view.to_multiset().filter(pred));
                assert(done_after.to_multiset().filter(pred) =~= done_before.to_multiset().filter(
                    pred,
                ).add(block_view.to_multiset().filter(pred)));
            }
        }
    }
    proof {
        assert(pend0.take(pend0.len() as int) =~= pend0);
        assert forall|i: int, k: int|
            0 <= i < parts@.len() && 0 <= k < parts@[i]@.len() implies pk.spec_row_keyed(
            #[trigger] parts@[i]@[k],
        ) && spec_route(*pk, splitters@, parts@[i]@[k]) == i by {
            let pred = |r: Row| spec_route(*pk, splitters@, r) == i;
            let x = parts@[i]@[k];
            assert(parts@[i]@.contains(x));
            assert(parts@[i]@.to_multiset().count(x) > 0);
            assert(pend0.to_multiset().filter(pred).count(x) > 0);
            assert(pred(x) && pend0.to_multiset().count(x) > 0);
            assert(pend0.contains(x));
        }
    }
    parts
}

/// The batches of a partitioned input cover its whole multiset: every row is
/// routed to exactly one partition.
proof fn lemma_batches_filter_total(
    parts: Seq<Vec<Row>>,
    m: Multiset<Row>,
    pk: ParquetKey,
    splitters: Seq<Row>,
    lo: int,
)
    requires
        forall|i: int|
            0 <= i < parts.len() ==> (#[trigger] parts[i])@.to_multiset() == m.filter(
                |r: Row| spec_route(pk, splitters, r) == lo + i,
            ),
    ensures
        forall|x: Row|
            batches_ms(parts).count(x) == if lo <= spec_route(pk, splitters, x) < lo + parts.len() {
                m.count(x)
            } else {
                0
            },
    decreases parts.len(),
{
    if parts.len() == 0 {
    } else {
        assert forall|i: int|
            0 <= i < parts.drop_first().len() implies (#[trigger] parts.drop_first()[i])@.to_multiset()
            == m.filter(|r: Row| spec_route(pk, splitters, r) == lo + 1 + i) by {
            assert(parts.drop_first()[i] == parts[i + 1]);
        }
        lemma_batches_filter_total(parts.drop_first(), m, pk, splitters, lo + 1);
        assert(parts[0]@.to_multiset() == m.filter(|r: Row| spec_route(pk, splitters, r) == lo));
        assert forall|x: Row|
            batches_ms(parts).count(x) == (if lo <= spec_route(pk, splitters, x) < lo
                + parts.len() {
                m.count(x)
            } else {
                0
            }) by {
            let pred = |r: Row| spec_route(pk, splitters, r) == lo;
            assert(batches_ms(parts).count(x) == parts[0]@.to_multiset().count(x) + batches_ms(
                parts.drop_first(),
            ).count(x));
            assert(m.filter(pred).count(x) == if pred(x) {
                m.count(x)
            } else {
                0
            });
        }
    }
}

/// Sort each partition in memory and concatenate them, in partition order,
/// into the final output.
///
/// Every partition becomes one row-group of the output. The rows appended by
/// the call are sorted by the key and form the multiset union of the
/// partitions; the buffer is closed at the end.
pub fn sort_ms_stage_2(
    parts: Vec<Vec<Row>>,
    splitters: &Vec<Row>,
    pk: &ParquetKey,
    writer: &mut RowWriteBuffer,
)
    requires
        old(writer).inv(),
        !old(writer).closed,
        old(writer).buffer@.len() == 0,
        forall|a: int, b: int|
            0 <= a < b < splitters@.len() ==> spec_key_col(#[trigger] splitters@[a], 0)
                <= spec_key_col(#[trigger] splitters@[b], 0),
        forall|i: int, k: int|
            0 <= i < parts@.len() && 0 <= k < parts@[i]@.len() ==> pk.spec_row_keyed(
                #[trigger] parts@[i]@[k],
            ) && spec_route(*pk, splitters@, parts@[i]@[k]) == i,
    ensures
        final(writer).inv(),
        final(writer).same_config(old(writer)),
        final(writer).closed,
        ({
            let out = final(writer).appended().skip(old(writer).appended().len() as int);
            &&& final(writer).appended() == old(writer).appended() + out
            &&& spec_sorted(pk, out)
            &&& out.to_multiset() == batches_ms(parts@)
        }),
{
    let ghost parts0 = parts@;
    let ghost app0 = writer.appended();
    let ghost mut out: Seq<Row> = Seq::empty();
    let mut rest = parts;
    proof {
        lemma_empty_row_ms(out);
        assert(writer.appended() =~= app0 + out);
    }
    while rest.len() > 0
        invariant
            writer.inv(),
            writer.same_config(old(writer)),
            !writer.closed,
            writer.buffer@.len() == 0,
            rest@.len() <= parts0.len(),
            rest@ == parts0.skip(parts0.len() - rest@.len()),
            forall|a: int, b: int|
                0 <= a < b < splitters@.len() ==> spec_key_col(#[trigger] splitters@[a], 0)
                    <= spec_key_col(#[trigger] splitters@[b], 0),
            forall|i: int, k: int|
                0 <= i < parts0.len() && 0 <= k < parts0[i]@.len() ==> pk.spec_row_keyed(
                    #[trigger] parts0[i]@[k],
                ) && spec_route(*pk, splitters@, parts0[i]@[k]) == i,
            writer.appended() == app0 + out,
            spec_sorted(pk, out),
            out.to_multiset().add(batches_ms(rest@)) == batches_ms(parts0),
            forall|k: int|
                0 <= k < out.len() ==> spec_route(*pk, splitters@, #[trigger] out[k]) < parts0.len()
                    - rest@.len(),
        decreases rest@.len(),
    {
        let ghost g = parts0.len() - rest@.len();
        let ghost rest_before = rest@;
        let mut data = rest.remove(0);
        proof {
            assert(rest@ =~= rest_before.drop_first());
            assert(rest@ =~= parts0.skip(parts0.len() - rest@.len()));
            assert(data == parts0[g]);
            assert forall|k: int| 0 <= k < data@.len() implies pk.spec_row_keyed(
                #[trigger] data@[k],
            ) by {
                assert(parts0[g]@[k] == data@[k]);
            }
        }
        sort_rows(&mut data, pk);
        proof {
            assert forall|k: int| 0 <= k < data@.len() implies pk.spec_row_keyed(#[trigger] data@[k])
                && spec_route(*pk, splitters@, data@[k]) == g by {
                assert(data@.to_multiset().contains(data@[k]));
                assert(parts0[g]@.to_multiset().contains(data@[k]));
                assert(parts0[g]@.contains(data@[k]));
            }
            assert forall|a: int, b: int|
                0 <= a < out.len() && 0 <= b < data@.len() implies pk.le_spec(
                #[trigger] out[a],
                #[trigger] data@[b],
            ) by {
                lemma_route_ordered(*pk, splitters@, out[a], data@[b]);
            }
            lemma_sorted_join(pk, out, data@);
            vstd::seq_lib::lemma_multiset_commutative(out, data@);
            assert(batches_ms(rest_before) == parts0[g]@.to_multiset().add(batches_ms(rest@)));
        }
        let ghost data_view = data@;
        match writer.append_row_group(data) {
            Ok(()) => {},
            Err(_) => {},
        }
        proof {
            out = out + data_view;
            assert(writer.appended() =~= app0 + out);
            assert(out.to_multiset().add(batches_ms(rest@)) =~= batches_ms(parts0));
        }
    }
    writer.close();
    proof {
        lemma_empty_row_ms(Seq::<Row>::empty());
        assert(batches_ms(rest@) =~= Multiset::<Row>::empty());
        assert(out.to_multiset() =~= batches_ms(parts0));
        assert(out =~= writer.appended().skip(app0.len() as int));
    }
}

/// Sort a large input in two phases: partition it into disjoint key ranges,
/// then sort each partition and concatenate them in range order.
///
/// The rows appended to the buffer are sorted by the key and are exactly the
/// input's pending rows; the buffer is closed at the end. Splitters come
/// from a sorted sample of the first rows' keys; when the input is too small
/// to sample, everything goes through a single partition.
pub fn sort_multistage(
    input: RowIterExt,
    writer: &mut RowWriteBuffer,
    pk: &ParquetKey,
    num_partition: usize,
    block_size: u64,
)
    requires
        old(writer).inv(),
        !old(writer).closed,
        old(writer).buffer@.len() == 0,
        block_size >= 1,
        2 <= num_partition < usize::MAX / 2,
        forall|k: int| 0 <= k < input.pending().len() ==> pk.spec_row_keyed(#[trigger] input.pending()[k]),
    ensures
        final(writer).inv(),
        final(writer).same_config(old(writer)),
        final(writer).closed,
        ({
            let out = final(writer).appended().skip(old(writer).appended().len() as int);
            &&& final(writer).appended() == old(writer).appended() + out
            &&& spec_sorted(pk, out)
            &&& out.to_multiset() == input.pending().to_multiset()
        }),
{
    let sample_n: usize = if input.rows.len() < SAMPLE_SIZE {
        input.rows.len()
    } else {
        SAMPLE_SIZE
    };
    let mut sample: Vec<Row> = Vec::new();
    let mut j: usize = 0;
    while j < sample_n
        invariant
            sample_n <= input.pending().len(),
            sample_n <= SAMPLE_SIZE,
            0 <= j <= sample_n,
            forall|k: int| 0 <= k < input.pending().len() ==> pk.spec_row_keyed(#[trigger] input.pending()[k]),
            sample@.len() == j,
            forall|k: int|
                0 <= k < j ==> pk.spec_splitter_keyed(#[trigger] sample@[k]) && (
                #[trigger] sample@[k]).fields@.len() == 1,
        decreases sample_n - j,
    {
        let name = pk.name.clone();
        let value: crate::model::FieldValue = match &input.rows[j].fields[pk.sort_col].1 {
            crate::model::FieldValue::I64(x) => crate::model::FieldValue::I64(*x),
            crate::model::FieldValue::I32(x) => crate::model::FieldValue::I32(*x),
            _ => vstd::pervasive::unreached(),
        };
        proof {
            match pk.phys_type {
                crate::model::PhysicalType::Int64 => assert(value is I64),
                crate::model::PhysicalType::Int32 => assert(value is I32),
                crate::model::PhysicalType::ByteArray => assert(false),
            }
        }
        let mut fields: Vec<(String, crate::model::FieldValue)> = Vec::new();
        fields.push((name, value));
        sample.push(Row { fields });
        j = j + 1;
    }
    let ghost sample_len = sample@.len();
    let splitters: Vec<Row> = if sample.len() >= num_partition - 1 {
        partitioning(sample, pk, num_partition)
    } else {
        Vec::new()
    };
    proof {
        assert(splitters@.len() <= sample_len < usize::MAX);
    }
    let ghost pend0 = input.pending();
    let parts = sort_ms_stage_1(input, &splitters, pk, block_size);
    proof {
        lemma_batches_filter_total(parts@, pend0.to_multiset(), *pk, splitters@, 0);
        assert forall|x: Row| batches_ms(parts@).count(x) == pend0.to_multiset().count(x) by {
            lemma_route_bounds(*pk, splitters@, x);
        }
        assert(batches_ms(parts@) =~= pend0.to_multiset());
    }
    sort_ms_stage_2(parts, &splitters, pk, writer);
}

/// Two row sequences that are sorted by the same key and hold the same rows
/// agree on the entire key sequence. In particular, on an input that fits in
/// one block, the two-phase sort and the single-pass sort produce outputs
/// with identical key columns; they may order distinct rows that share a key
/// differently.
pub proof fn lemma_sorted_same_keys(pk: ParquetKey, s1: Seq<Row>, s2: Seq<Row>)
    requires
        forall|a: int, b: int|
            0 <= a < b < s1.len() ==> pk.spec_key(#[trigger] s1[a]) <= pk.spec_key(
                #[trigger] s1[b],
            ),
        forall|a: int, b: int|
            0 <= a < b < s2.len() ==> pk.spec_key(#[trigger] s2[a]) <= pk.spec_key(
                #[trigger] s2[b],
            ),
        s1.to_multiset() == s2.to_multiset(),
    ensures
        s1.len() == s2.len(),
        forall|i: int| 0 <= i < s1.len() ==> pk.spec_key(#[trigger] s1[i]) == pk.spec_key(s2[i]),
    decreases s1.len(),
{
    assert(s1.len() == s1.to_multiset().len());
    assert(s2.len() == s2.to_multiset().len());
    if s1.len() == 0 {
    } else {
        let x = s1[0];
        assert(s1.contains(x));
        assert(s2.to_multiset().count(x) > 0);
        assert(s2.contains(x));
        let j = choose|j: int| 0 <= j < s2.len() && s2[j] == x;
        let y = s2[0];
        assert(pk.spec_key(y) <= pk.spec_key(x)) by {
            if j > 0 {
                assert(pk.spec_key(s2[0]) <= pk.spec_key(s2[j]));
            }
        }
        assert(s2.contains(y));
        assert(s1.to_multiset().count(y) > 0);
        assert(s1.contains(y));
        let jy = choose|k: int| 0 <= k < s1.len() && s1[k] == y;
        assert(pk.spec_key(x) <= pk.spec_key(y)) by {
            if jy > 0 {
                assert(pk.spec_key(s1[0]) <= pk.spec_key(s1[jy]));
            }
        }
        assert forall|m: int| 0 <= m <= j implies pk.spec_key(#[trigger] s2[m]) == pk.spec_key(
            x,
        ) by {
            if 0 < m {
                assert(pk.spec_key(s2[0]) <= pk.spec_key(s2[m]));
                if m < j {
                    assert(pk.spec_key(s2[m]) <= pk.spec_key(s2[j]));
                }
            }
        }
        let s1t = s1.drop_first();
        let s2t = s2.remove(j);
        assert(s1t =~= s1.remove(0));
        assert(s1.remove(0).to_multiset() == s1.to_multiset().remove(s1[0]));
        assert(s2t.to_multiset() == s2.to_multiset().remove(s2[j]));
        assert(s1t.to_multiset() == s2t.to_multiset());
        assert forall|a: int, b: int|
            0 <= a < b < s1t.len() implies pk.spec_key(#[trigger] s1t[a]) <= pk.spec_key(
            #[trigger] s1t[b],
        ) by {
            assert(s1t[a] == s1[a + 1] && s1t[b] == s1[b + 1]);
        }
        assert forall|a: int, b: int|
            0 <= a < b < s2t.len() implies pk.spec_key(#[trigger] s2t[a]) <= pk.spec_key(
            #[trigger] s2t[b],
        ) by {
            let a2 = if a < j {
                a
            } else {
                a + 1
            };
            let b2 = if b < j {
                b
            } else {
                b + 1
            };
            assert(s2t[a] == s2[a2] && s2t[b] == s2[b2]);
            assert(pk.spec_key(s2[a2]) <= pk.spec_key(s2[b2]));
        }
        lemma_sorted_same_keys(pk, s1t, s2t);
        assert forall|i: int| 0 <= i < s1.len() implies pk.spec_key(#[trigger] s1[i])
            == pk.spec_key(s2[i]) by {
            if i > 0 {
                assert(s1[i] == s1t[i - 1]);
                assert(pk.spec_key(s1t[i - 1]) == pk.spec_key(s2t[i - 1]));
                if i - 1 >= j {
                    assert(s2t[i - 1] == s2[i]);
                } else {
                    assert(s2t[i - 1] == s2[i - 1]);
                    assert(pk.spec_key(s2[i - 1]) == pk.spec_key(x));
                    assert(pk.spec_key(s2[i]) == pk.spec_key(x));
                }
            }
        }
    }
}

/// A row consistent with the schema can be keyed by a descriptor resolved
/// against that schema.
pub proof fn lemma_consistent_row_keyed(pk: ParquetKey, r: Row, s: crate::model::Schema)
    requires
        pk.spec_wf(s),
        crate::model::spec_row_consistent(r, s),
    ensures
        pk.spec_row_keyed(r),
{
    let f = s.fields@[pk.sort_col as int];
    assert(crate::model::spec_value_matches(r.fields@[pk.sort_col as int].1, f));
}

/// Sort an input by a named key field.
///
/// Resolves the field, then dispatches on the input's on-disk size: inputs
/// below `MAX_SIZE_SIMPLE_SORT` bytes are sorted in a single pass, larger
/// ones through the two-phase partitioned sort. On success the rows appended
/// to the buffer are sorted by the named key column and are exactly the
/// input's rows, and the buffer is closed. Key resolution fails as the key
/// descriptor does; the single-pass path fails with `InputTooLarge` on
/// inputs beyond one sort block. On failure the buffer is untouched.
pub fn sort(
    input: RowIterExt,
    writer: &mut RowWriteBuffer,
    sort_field_name: &String,
    object_size: u64,
) -> (r: Result<(), OpsError>)
    requires
        old(writer).inv(),
        !old(writer).closed,
        old(writer).buffer@.len() == 0,
        crate::model::spec_rows_consistent(input.pending(), input.schema),
    ensures
        final(writer).inv(),
        final(writer).same_config(old(writer)),
        match r {
            Ok(()) => {
                let out = final(writer).appended().skip(old(writer).appended().len() as int);
                &&& final(writer).closed
                &&& final(writer).appended() == old(writer).appended() + out
                &&& out.to_multiset() == input.pending().to_multiset()
                &&& exists|col: int|
                    #![auto]
                    crate::keys::spec_unique_match(input.schema.fields@, sort_field_name@, col) && (
                    forall|a: int, b: int|
                        0 <= a < b < out.len() ==> spec_key_col(out[a], col) <= spec_key_col(
                            out[b],
                            col,
                        ))
            },
            Err(e) => {
                &&& *final(writer) == *old(writer)
                &&& match e {
                    OpsError::UnknownField { name } => name@ == sort_field_name@
                        && crate::keys::spec_no_match(input.schema.fields@, sort_field_name@),
                    OpsError::AmbiguousField { name } => name@ == sort_field_name@
                        && crate::keys::spec_many_matches(input.schema.fields@, sort_field_name@),
                    OpsError::UnsupportedKeyType { physical } => exists|i: int|
                        crate::keys::spec_unique_match(input.schema.fields@, sort_field_name@, i)
                            && !crate::keys::spec_key_field_ok(#[trigger] input.schema.fields@[i])
                            && input.schema.fields@[i].physical == physical,
                    OpsError::InputTooLarge => object_size < MAX_SIZE_SIMPLE_SORT
                        && input.pending().len() > MAX_SORT_BLOCK,
                    _ => false,
                }
            },
        },
{
    let pk: ParquetKey = match ParquetKey::new(sort_field_name.clone(), input.schema()) {
        Ok(k) => k,
        Err(e) => {
            return Err(e);
        },
    };
    proof {
        assert forall|k: int| 0 <= k < input.pending().len() implies pk.spec_row_keyed(
            #[trigger] input.pending()[k],
        ) by {
            lemma_consistent_row_keyed(pk, input.pending()[k], input.schema);
        }
    }
    let ghost col = pk.sort_col as int;
    if object_size < MAX_SIZE_SIMPLE_SORT {
        match sort_simple(input, writer, &pk) {
            Ok(()) => {},
            Err(e) => {
                return Err(e);
            },
        }
    } else {
        sort_multistage(input, writer, &pk, SORT_PARTITIONS, MAX_SORT_BLOCK);
    }
    proof {
        let out = writer.appended().skip(old(writer).appended().len() as int);
        assert(crate::keys::spec_unique_match(input.schema.fields@, sort_field_name@, col) && (
        forall|a: int, b: int|
            0 <= a < b < out.len() ==> spec_key_col(out[a], col) <= spec_key_col(out[b], col)));
    }
    Ok(())
}

} // verus!
