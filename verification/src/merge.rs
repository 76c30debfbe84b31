//! K-way streaming merge.
//!
//! Given cursors whose pending rows are each sorted under a comparator, the
//! merger repeatedly appends the smallest head to a write buffer, preferring
//! the earliest stream on ties, until every stream is exhausted. The output
//! is sorted and is a permutation of the union of the inputs.

use vstd::prelude::*;
use vstd::pervasive::unreached;
use vstd::multiset::Multiset;
use vstd::seq_lib::lemma_multiset_commutative;
use crate::buffer::RowWriteBuffer;
use crate::cursor::RowIterExt;
use crate::errors::OpsError;
use crate::model::Row;
use crate::order::{spec_rows_ok, spec_sorted, RowCmp};

verus! {

broadcast use {vstd::multiset::group_multiset_axioms, vstd::seq_lib::group_to_multiset_ensures};

/// The multiset union of all pending rows of a sequence of cursors.
pub open spec fn pend_ms(its: Seq<RowIterExt>) -> Multiset<Row>
    decreases its.len(),
{
    if its.len() == 0 {
        Multiset::empty()
    } else {
        its[0].pending().to_multiset().add(pend_ms(its.drop_first()))
    }
}

/// The total number of pending rows of a sequence of cursors.
pub open spec fn pend_len(its: Seq<RowIterExt>) -> nat
    decreases its.len(),
{
    if its.len() == 0 {
        0
    } else {
        its[0].pending().len() + pend_len(its.drop_first())
    }
}

/// Every cursor's pending rows are sorted and fit the comparator.
pub open spec fn inputs_sorted<C: RowCmp>(c: &C, its: Seq<RowIterExt>) -> bool {
    forall|i: int|
        0 <= i < its.len() ==> spec_sorted(c, (#[trigger] its[i]).pending()) && spec_rows_ok(
            c,
            its[i].pending(),
        )
}

/// An empty sequence has the empty multiset.
proof fn lemma_empty_seq_ms(s: Seq<Row>)
    requires
        s.len() == 0,
    ensures
        s.to_multiset() == Multiset::<Row>::empty(),
{
    assert(s.to_multiset() =~= Multiset::<Row>::empty());
}

/// Removing the cursor at `i` removes exactly its pending multiset.
proof fn lemma_pend_ms_remove(its: Seq<RowIterExt>, i: int)
    requires
        0 <= i < its.len(),
    ensures
        pend_ms(its.remove(i)).add(its[i].pending().to_multiset()) == pend_ms(its),
    decreases its.len(),
{
    if i == 0 {
        assert(its.remove(0) =~= its.drop_first());
        assert(pend_ms(its.remove(0)).add(its[0].pending().to_multiset()) =~= pend_ms(its));
    } else {
        lemma_pend_ms_remove(its.drop_first(), i - 1);
        assert(its.remove(i).drop_first() =~= its.drop_first().remove(i - 1));
        assert(its.remove(i)[0] == its[0]);
        assert(pend_ms(its.remove(i)) == its[0].pending().to_multiset().add(
            pend_ms(its.drop_first().remove(i - 1)),
        ));
        assert(pend_ms(its.remove(i)).add(its[i].pending().to_multiset()) =~= pend_ms(its));
    }
}

/// Inserting a cursor adds exactly its pending multiset.
proof fn lemma_pend_ms_insert(its: Seq<RowIterExt>, i: int, it: RowIterExt)
    requires
        0 <= i <= its.len(),
    ensures
        pend_ms(its.insert(i, it)) == pend_ms(its).add(it.pending().to_multiset()),
    decreases its.len(),
{
    if i == 0 {
        assert(its.insert(0, it)[0] == it);
        assert(its.insert(0, it).drop_first() =~= its);
        assert(pend_ms(its.insert(0, it)) =~= pend_ms(its).add(it.pending().to_multiset()));
    } else {
        lemma_pend_ms_insert(its.drop_first(), i - 1, it);
        assert(its.insert(i, it)[0] == its[0]);
        assert(its.insert(i, it).drop_first() =~= its.drop_first().insert(i - 1, it));
        assert(pend_ms(its.insert(i, it)) =~= pend_ms(its).add(it.pending().to_multiset()));
    }
}

/// Removing the cursor at `i` removes exactly its pending length.
proof fn lemma_pend_len_remove(its: Seq<RowIterExt>, i: int)
    requires
        0 <= i < its.len(),
    ensures
        pend_len(its.remove(i)) + its[i].pending().len() == pend_len(its),
    decreases its.len(),
{
    if i == 0 {
        assert(its.remove(0) =~= its.drop_first());
    } else {
        lemma_pend_len_remove(its.drop_first(), i - 1);
        assert(its.remove(i).drop_first() =~= its.drop_first().remove(i - 1));
        assert(its.remove(i)[0] == its[0]);
    }
}

/// Inserting a cursor adds exactly its pending length.
proof fn lemma_pend_len_insert(its: Seq<RowIterExt>, i: int, it: RowIterExt)
    requires
        0 <= i <= its.len(),
    ensures
        pend_len(its.insert(i, it)) == pend_len(its) + it.pending().len(),
    decreases its.len(),
{
    if i == 0 {
        assert(its.insert(0, it)[0] == it);
        assert(its.insert(0, it).drop_first() =~= its);
    } else {
        lemma_pend_len_insert(its.drop_first(), i - 1, it);
        assert(its.insert(i, it)[0] == its[0]);
        assert(its.insert(i, it).drop_first() =~= its.drop_first().insert(i - 1, it));
    }
}

/// Consuming the head of a sorted, comparator-ready sequence leaves a
/// sorted, comparator-ready sequence.
proof fn lemma_sorted_drop_first<C: RowCmp>(c: &C, s: Seq<Row>)
    requires
        spec_sorted(c, s),
        spec_rows_ok(c, s),
        s.len() > 0,
    ensures
        spec_sorted(c, s.drop_first()),
        spec_rows_ok(c, s.drop_first()),
{
    let t = s.drop_first();
    assert forall|a: int, b: int| 0 <= a < b < t.len() implies c.le_spec(
        #[trigger] t[a],
        #[trigger] t[b],
    ) by {
        assert(c.le_spec(s[a + 1], s[b + 1]));
    }
    assert forall|a: int| 0 <= a < t.len() implies c.row_ok(#[trigger] t[a]) by {
        assert(c.row_ok(s[a + 1]));
    }
}

/// A sorted sequence extended by a sorted sequence whose first element is no
/// smaller than the last element of the first stays sorted.
proof fn lemma_sorted_extend<C: RowCmp>(c: &C, a: Seq<Row>, b: Seq<Row>)
    requires
        spec_sorted(c, a),
        spec_sorted(c, b),
        a.len() > 0 && b.len() > 0 ==> c.le_spec(a.last(), b.first()),
    ensures
        spec_sorted(c, a + b),
{
    let ab = a + b;
    assert forall|i: int, j: int| 0 <= i < j < ab.len() implies c.le_spec(ab[i], ab[j]) by {
        if j < a.len() {
            assert(c.le_spec(a[i], a[j]));
        } else if i >= a.len() {
            assert(c.le_spec(b[i - a.len()], b[j - a.len()]));
        } else {
            let x = ab[i];
            let y = ab[j];
            if i < a.len() - 1 {
                assert(c.le_spec(x, a.last()));
            } else {
                c.lemma_total(x, x);
            }
            if j - a.len() > 0 {
                assert(c.le_spec(b.first(), y));
            } else {
                c.lemma_total(y, y);
            }
            c.lemma_trans(x, a.last(), b.first());
            c.lemma_trans(x, b.first(), y);
        }
    }
}

/// Merge the pending rows of the given cursors into the write buffer.
///
/// Cursors that are already terminal are discarded first; if none remains,
/// the merge fails with `Internal` and the buffer is untouched. Otherwise
/// every pending row is appended exactly once: the rows appended by the call
/// are sorted under the comparator and form the multiset union of the
/// inputs' pending rows. The head selection keeps the earliest stream on
/// ties.
pub fn merge_into<C: RowCmp>(inputs: Vec<RowIterExt>, writer: &mut RowWriteBuffer, cmp: &C) -> (r:
    Result<(), OpsError>)
    requires
        old(writer).inv(),
        !old(writer).closed,
        inputs_sorted(cmp, inputs@),
    ensures
        final(writer).inv(),
        final(writer).same_config(old(writer)),
        !final(writer).closed,
        match r {
            Ok(()) => {
                let merged = final(writer).appended().skip(old(writer).appended().len() as int);
                &&& final(writer).appended() == old(writer).appended() + merged
                &&& spec_sorted(cmp, merged)
                &&& merged.to_multiset() == pend_ms(inputs@)
            },
            Err(e) => {
                &&& e is Internal
                &&& forall|j: int|
                    0 <= j < inputs@.len() ==> (#[trigger] inputs@[j]).pending().len() == 0
                &&& *final(writer) == *old(writer)
            },
        },
{
    let ghost inputs0 = inputs@;
    let ghost total = pend_ms(inputs@);
    let mut rest = inputs;
    let mut iters: Vec<RowIterExt> = Vec::new();
    while rest.len() > 0
        invariant
            inputs_sorted(cmp, iters@),
            inputs_sorted(cmp, rest@),
            forall|i: int| 0 <= i < iters@.len() ==> (#[trigger] iters@[i]).pending().len() > 0,
            pend_ms(iters@).add(pend_ms(rest@)) == total,
            iters@.len() > 0 || (forall|j: int|
                0 <= j < inputs0.len() - rest@.len() ==> (#[trigger] inputs0[j]).pending().len()
                    == 0),
            rest@.len() <= inputs0.len(),
            rest@ == inputs0.skip(inputs0.len() - rest@.len()),
        decreases rest@.len(),
    {
        let ghost rest_before = rest@;
        let it = rest.remove(0);
        proof {
            assert(rest@ =~= rest_before.drop_first());
            assert(rest@ =~= inputs0.skip(inputs0.len() - rest@.len()));
        }
        if it.rows.len() > 0 {
            let ghost iters_before = iters@;
            iters.push(it);
            proof {
                lemma_pend_ms_insert(iters_before, iters_before.len() as int, it);
                assert(iters@ =~= iters_before.insert(iters_before.len() as int, it));
                assert(pend_ms(iters@).add(pend_ms(rest@)) =~= total);
            }
        } else {
            proof {
                lemma_empty_seq_ms(it.pending());
                assert(pend_ms(iters@).add(pend_ms(rest@)) =~= total);
                assert(inputs0[inputs0.len() - rest_before.len()] == it);
            }
        }
    }
    if iters.len() == 0 {
        proof {
            assert(forall|j: int|
                0 <= j < inputs0.len() ==> (#[trigger] inputs0[j]).pending().len() == 0);
        }
        return Err(OpsError::Internal { detail: "nothing to merge".to_owned() });
    }
    let ghost app0 = writer.appended();
    let ghost mut out: Seq<Row> = Seq::empty();
    proof {
        assert(pend_ms(rest@) =~= Multiset::<Row>::empty());
        assert(pend_ms(iters@) =~= total);
        lemma_empty_seq_ms(out);
        assert(writer.appended() =~= app0 + out);
    }
    while iters.len() > 0
        invariant
            writer.inv(),
            writer.same_config(old(writer)),
            !writer.closed,
            inputs_sorted(cmp, iters@),
            forall|i: int| 0 <= i < iters@.len() ==> (#[trigger] iters@[i]).pending().len() > 0,
            writer.appended() == app0 + out,
            spec_sorted(cmp, out),
            out.to_multiset().add(pend_ms(iters@)) == total,
            spec_rows_ok(cmp, out),
            forall|i: int|
                0 <= i < iters@.len() && out.len() > 0 ==> cmp.le_spec(
                    out.last(),
                    (#[trigger] iters@[i]).pending()[0],
                ),
        decreases pend_len(iters@),
    {
        let ghost iters_at = iters@;
        if iters.len() == 1 {
            let mut it = iters.remove(0);
            let ghost p = it.pending();
            proof {
                assert(iters@ =~= iters_at.drop_first());
                assert(pend_ms(iters_at) =~= p.to_multiset().add(pend_ms(iters@)));
                lemma_sorted_extend(cmp, out, p);
                lemma_multiset_commutative(out, p);
            }
            it.drain(writer);
            proof {
                out = out + p;
                assert(writer.appended() =~= app0 + out);
                assert(out.to_multiset().add(pend_ms(iters@)) =~= total);
            }
        } else {
            let n = iters.len();
            proof {
                cmp.lemma_total(iters@[0].pending()[0], iters@[0].pending()[0]);
            }
            let mut best: usize = 0;
            let mut k: usize = 1;
            while k < n
                invariant
                    n == iters@.len(),
                    iters@ == iters_at,
                    inputs_sorted(cmp, iters@),
                    forall|i: int|
                        0 <= i < iters@.len() ==> (#[trigger] iters@[i]).pending().len() > 0,
                    0 <= best < k <= n,
                    forall|j: int|
                        0 <= j < k ==> cmp.le_spec(
                            iters@[best as int].pending()[0],
                            (#[trigger] iters@[j]).pending()[0],
                        ),
                decreases n - k,
            {
                let hb = match iters[best].head() {
                    Some(r) => r,
                    None => unreached(),
                };
                let hk = match iters[k].head() {
                    Some(r) => r,
                    None => unreached(),
                };
                if !cmp.le(hb, hk) {
                    proof {
                        let ghost newh = iters@[k as int].pending()[0];
                        let ghost oldh = iters@[best as int].pending()[0];
                        cmp.lemma_total(oldh, newh);
                        assert forall|j: int| 0 <= j < k + 1 implies cmp.le_spec(
                            newh,
                            (#[trigger] iters@[j]).pending()[0],
                        ) by {
                            if j < k {
                                cmp.lemma_trans(newh, oldh, iters@[j].pending()[0]);
                            } else {
                                cmp.lemma_total(newh, newh);
                            }
                        }
                    }
                    best = k;
                } else {
                    proof {
                        cmp.lemma_total(iters@[k as int].pending()[0], iters@[k as int].pending()[0]);
                    }
                }
                k = k + 1;
            }
            let mut it = iters.remove(best);
            let ghost p = it.pending();
            let (row, terminal) = it.update_head();
            match writer.append_row(row) {
                Ok(()) => {},
                Err(e) => {
                    return Err(e);
                },
            }
            proof {
                lemma_pend_ms_remove(iters_at, best as int);
                lemma_pend_len_remove(iters_at, best as int);
                lemma_sorted_extend(cmp, out, seq![row]);
                lemma_multiset_commutative(out, seq![row]);
                assert(out.push(row) =~= out + seq![row]);
                assert(seq![row] =~= Seq::<Row>::empty().push(row));
                lemma_empty_seq_ms(Seq::<Row>::empty());
                assert(seq![row].to_multiset() =~= Multiset::<Row>::empty().insert(row));
                assert(p.contains(p[0]));
                assert(p.remove(0).to_multiset() == p.to_multiset().remove(p[0]));
                assert(seq![row].to_multiset().add(p.remove(0).to_multiset())
                    =~= p.to_multiset());
                assert(p.drop_first() =~= p.remove(0));
                assert(it.pending() == p.drop_first());
                out = out.push(row);
                assert(writer.appended() =~= app0 + out);
            }
            if !terminal {
                let ghost iters_mid = iters@;
                iters.insert(best, it);
                proof {
                    lemma_pend_ms_insert(iters_mid, best as int, it);
                    lemma_pend_len_insert(iters_mid, best as int, it);
                    assert(out.to_multiset().add(pend_ms(iters@)) =~= total);
                    assert(iters@ =~= iters_at.update(best as int, it));
                    lemma_sorted_drop_first(cmp, p);
                    assert forall|i: int|
                        0 <= i < iters@.len() implies spec_sorted(
                        cmp,
                        (#[trigger] iters@[i]).pending(),
                    ) && spec_rows_ok(cmp, iters@[i].pending()) by {
                        if i != best as int {
                            assert(iters@[i] == iters_at[i]);
                        }
                    }
                    assert forall|i: int| 0 <= i < iters@.len() implies cmp.le_spec(
                        out.last(),
                        (#[trigger] iters@[i]).pending()[0],
                    ) by {
                        if i == best as int {
                            assert(cmp.le_spec(p[0], p[1]));
                        } else {
                            assert(iters@[i] == iters_at[i]);
                        }
                    }
                }
            } else {
                proof {
                    assert(it.pending().len() == 0);
                    lemma_empty_seq_ms(it.pending());
                    assert(p.remove(0).to_multiset() =~= Multiset::<Row>::empty());
                    assert(out.to_multiset().add(pend_ms(iters@)) =~= total);
                }
            }
        }
    }
    proof {
        assert(pend_ms(iters@) =~= Multiset::<Row>::empty());
        assert(out.to_multiset() =~= total);
        assert(out =~= writer.appended().skip(app0.len() as int));
    }
    Ok(())
}

} // verus!
