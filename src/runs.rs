//! Maximal runs of rows sharing a group key, the mathematical model of grouping.
use vstd::prelude::*;

use crate::chunk::Datum;
use crate::types::InputRef;

verus! {

/// The group key of a row: the values of the key columns, in key order.
pub open spec fn key_of(row: Seq<Datum>, keys: Seq<InputRef>) -> Seq<Datum> {
    keys.map_values(|k: InputRef| row[k.index as int])
}

/// Whether two rows have the same group key.
pub open spec fn same_key(a: Seq<Datum>, b: Seq<Datum>, keys: Seq<InputRef>) -> bool {
    key_of(a, keys) == key_of(b, keys)
}

/// The maximal runs of consecutive rows with equal keys, in input order.
pub open spec fn runs(rows: Seq<Seq<Datum>>, keys: Seq<InputRef>) -> Seq<Seq<Seq<Datum>>>
    decreases rows.len(),
{
    if rows.len() == 0 {
        Seq::empty()
    } else {
        let prev = runs(rows.drop_last(), keys);
        if rows.len() >= 2 && same_key(rows[rows.len() - 2], rows.last(), keys) {
            prev.update(prev.len() - 1, prev.last().push(rows.last()))
        } else {
            prev.push(seq![rows.last()])
        }
    }
}

/// The basic shape of `runs`: they partition the rows, each is non-empty, all
/// rows of a run share its key, and the last run ends with the last row.
pub proof fn lemma_runs_shape(rows: Seq<Seq<Datum>>, keys: Seq<InputRef>)
    ensures
        runs(rows, keys).flatten() == rows,
        rows.len() == 0 <==> runs(rows, keys).len() == 0,
        runs(rows, keys).len() <= rows.len(),
        forall|t: int| 0 <= t < runs(rows, keys).len() ==> #[trigger] runs(rows, keys)[t].len() > 0,
        forall|t: int, u: int|
            0 <= t < runs(rows, keys).len() && 0 <= u < runs(rows, keys)[t].len() ==> same_key(
                #[trigger] runs(rows, keys)[t][u],
                runs(rows, keys)[t][0],
                keys,
            ),
        rows.len() > 0 ==> runs(rows, keys).last().last() == rows.last(),
    decreases rows.len(),
{
    if rows.len() > 0 {
        let p = rows.drop_last();
        lemma_runs_shape(p, keys);
        let prev = runs(p, keys);
        let g = runs(rows, keys);
        if rows.len() >= 2 && same_key(rows[rows.len() - 2], rows.last(), keys) {
            assert(prev.len() > 0);
            let last = prev.last().push(rows.last());
            assert(g == prev.update(prev.len() - 1, last));
            assert(prev.drop_last().push(last) =~= g);
            assert(prev.drop_last().push(prev.last()) =~= prev);
            prev.drop_last().lemma_flatten_push(prev.last());
            prev.drop_last().lemma_flatten_push(last);
            assert(prev.flatten() + seq![rows.last()] =~= g.flatten());
            assert(p.push(rows.last()) =~= rows);
            assert(rows[rows.len() - 2] == p.last());
            assert(prev.last().last() == p.last());
            assert forall|t: int, u: int| 0 <= t < g.len() && 0 <= u < g[t].len() implies same_key(
                #[trigger] g[t][u],
                g[t][0],
                keys,
            ) by {
                if t == g.len() - 1 && u == g[t].len() - 1 {
                    assert(same_key(prev.last()[prev.last().len() - 1], prev.last()[0], keys));
                }
            }
        } else {
            prev.lemma_flatten_push(seq![rows.last()]);
            assert(prev.flatten() + seq![rows.last()] =~= rows);
        }
    }
}

/// Adding rows with the key of the last row extends the last run.
pub proof fn lemma_runs_extend_same(p: Seq<Seq<Datum>>, x: Seq<Seq<Datum>>, keys: Seq<InputRef>)
    requires
        p.len() > 0,
        forall|i: int| 0 <= i < x.len() ==> same_key(#[trigger] x[i], p.last(), keys),
    ensures
        runs(p + x, keys) == runs(p, keys).update(
            runs(p, keys).len() - 1,
            runs(p, keys).last() + x,
        ),
    decreases x.len(),
{
    lemma_runs_shape(p, keys);
    if x.len() == 0 {
        assert(p + x =~= p);
        assert(runs(p, keys).last() + x =~= runs(p, keys).last());
        assert(runs(p, keys).update(runs(p, keys).len() - 1, runs(p, keys).last())
            =~= runs(p, keys));
    } else {
        let xs = x.drop_last();
        lemma_runs_extend_same(p, xs, keys);
        let px = p + x;
        assert(px.drop_last() =~= p + xs);
        assert(px.last() == x.last());
        let prev_row = px[px.len() - 2];
        if xs.len() == 0 {
            assert(prev_row == p.last());
        } else {
            assert(prev_row == xs.last());
            assert(same_key(xs[xs.len() - 1], p.last(), keys));
        }
        assert(same_key(x[x.len() - 1], p.last(), keys));
        assert(same_key(prev_row, px.last(), keys));
        let g = runs(p, keys);
        assert((g.last() + xs).push(x.last()) =~= g.last() + x);
        assert(g.update(g.len() - 1, g.last() + xs).update(g.len() - 1, g.last() + x)
            =~= g.update(g.len() - 1, g.last() + x));
    }
}

/// Adding a non-empty block of rows that share a key different from the last
/// row's starts exactly one new run, holding that block.
pub proof fn lemma_runs_extend_new(p: Seq<Seq<Datum>>, x: Seq<Seq<Datum>>, keys: Seq<InputRef>)
    requires
        x.len() > 0,
        forall|i: int| 0 <= i < x.len() ==> same_key(#[trigger] x[i], x[0], keys),
        p.len() > 0 ==> !same_key(p.last(), x[0], keys),
    ensures
        runs(p + x, keys) == runs(p, keys).push(x),
    decreases x.len(),
{
    let px = p + x;
    assert(px.drop_last() =~= p + x.drop_last());
    assert(px.last() == x.last());
    if x.len() == 1 {
        assert(p + x.drop_last() =~= p);
        if px.len() >= 2 {
            assert(px[px.len() - 2] == p.last());
        }
        assert(seq![x.last()] =~= x);
    } else {
        let xs = x.drop_last();
        assert(forall|i: int| 0 <= i < xs.len() ==> #[trigger] xs[i] == x[i]);
        lemma_runs_extend_new(p, xs, keys);
        assert(px[px.len() - 2] == xs.last());
        assert(same_key(x[x.len() - 2], x[0], keys));
        assert(same_key(x[x.len() - 1], x[0], keys));
        let g = runs(p, keys);
        assert(xs.push(x.last()) =~= x);
        assert(g.push(xs).update(g.len() as int, xs.push(x.last())) =~= g.push(x));
    }
}

/// Rows added after `p` never change its runs but the last, which they may only extend.
pub proof fn lemma_runs_prefix(p: Seq<Seq<Datum>>, y: Seq<Seq<Datum>>, keys: Seq<InputRef>)
    requires
        p.len() > 0,
    ensures
        runs(p + y, keys).len() >= runs(p, keys).len(),
        forall|t: int| 0 <= t < runs(p, keys).len() - 1 ==> #[trigger] runs(p + y, keys)[t]
            == runs(p, keys)[t],
        runs(p + y, keys)[runs(p, keys).len() - 1].len() >= runs(p, keys).last().len(),
        runs(p + y, keys)[runs(p, keys).len() - 1].subrange(0, runs(p, keys).last().len() as int)
            == runs(p, keys).last(),
    decreases y.len(),
{
    lemma_runs_shape(p, keys);
    if y.len() == 0 {
        assert(p + y =~= p);
        assert(runs(p, keys).last().subrange(0, runs(p, keys).last().len() as int)
            =~= runs(p, keys).last());
    } else {
        let ys = y.drop_last();
        lemma_runs_prefix(p, ys, keys);
        let py = p + y;
        assert(py.drop_last() =~= p + ys);
        let h = runs(p + ys, keys);
        let g = runs(p, keys);
        let n = g.len() - 1;
        lemma_runs_shape(p + ys, keys);
        if py.len() >= 2 && same_key(py[py.len() - 2], py.last(), keys) {
            let h2 = h.update(h.len() - 1, h.last().push(py.last()));
            assert(runs(py, keys) == h2);
            if n == h.len() - 1 {
                assert(h2[n].subrange(0, g.last().len() as int) =~= h[n].subrange(
                    0,
                    g.last().len() as int,
                ));
            }
        } else {
            assert(runs(py, keys) == h.push(seq![py.last()]));
        }
    }
}


/// Runs are maximal: the last row of a run and the first row of the next one
/// have different keys.
pub proof fn lemma_runs_maximal(rows: Seq<Seq<Datum>>, keys: Seq<InputRef>)
    ensures
        forall|t: int|
            0 <= t < runs(rows, keys).len() - 1 ==> !same_key(
                (#[trigger] runs(rows, keys)[t]).last(),
                runs(rows, keys)[t + 1][0],
                keys,
            ),
    decreases rows.len(),
{
    if rows.len() > 0 {
        let p = rows.drop_last();
        lemma_runs_maximal(p, keys);
        lemma_runs_shape(p, keys);
        let prev = runs(p, keys);
        let g = runs(rows, keys);
        if rows.len() >= 2 && same_key(rows[rows.len() - 2], rows.last(), keys) {
            assert forall|t: int| 0 <= t < g.len() - 1 implies !same_key(
                (#[trigger] g[t]).last(),
                g[t + 1][0],
                keys,
            ) by {
                assert(g[t] == prev[t]);
                assert(g[t + 1][0] == prev[t + 1][0]);
            }
        } else {
            assert forall|t: int| 0 <= t < g.len() - 1 implies !same_key(
                (#[trigger] g[t]).last(),
                g[t + 1][0],
                keys,
            ) by {
                if t == g.len() - 2 {
                    assert(prev.last().last() == p.last());
                    assert(rows[rows.len() - 2] == p.last());
                }
            }
        }
    }
}

/// A sequence whose neighbours all differ in key has one run per row.
pub proof fn lemma_runs_of_distinct_neighbours(rows: Seq<Seq<Datum>>, keys: Seq<InputRef>)
    requires
        forall|i: int| 0 < i < rows.len() ==> !same_key(#[trigger] rows[i - 1], rows[i], keys),
    ensures
        runs(rows, keys) == rows.map_values(|r: Seq<Datum>| seq![r]),
    decreases rows.len(),
{
    if rows.len() > 0 {
        let p = rows.drop_last();
        assert forall|i: int| 0 < i < p.len() implies !same_key(#[trigger] p[i - 1], p[i], keys) by {
            assert(p[i - 1] == rows[i - 1]);
        }
        lemma_runs_of_distinct_neighbours(p, keys);
        if rows.len() >= 2 {
            assert(!same_key(rows[rows.len() - 2], rows[rows.len() - 1], keys));
        }
        assert(p.map_values(|r: Seq<Datum>| seq![r]).push(seq![rows.last()]) =~= rows.map_values(
            |r: Seq<Datum>| seq![r],
        ));
    }
}

} // verus!
