//! What an aggregation outputs, as a function of its input rows: one row per
//! run, cut into batches, and when the aggregates fit in 64 bits.
use vstd::prelude::*;

use crate::agg::{agg_fits, agg_init, agg_value, lemma_agg_fold_append, to_datum, AggCall};
use crate::chunk::{DataChunk, Datum};
use crate::runs::{key_of, lemma_runs_prefix, runs};
use crate::types::InputRef;

verus! {

/// The visible rows of a sequence of chunks, in order.
pub open spec fn all_rows(chunks: Seq<DataChunk>) -> Seq<Seq<Datum>>
    decreases chunks.len(),
{
    if chunks.len() == 0 {
        Seq::empty()
    } else {
        all_rows(chunks.drop_last()) + chunks.last().visible_rows()
    }
}

/// The output row of one group: its key values, then one value per aggregate.
pub open spec fn out_row(key: Seq<Datum>, group: Seq<Seq<Datum>>, calls: Seq<AggCall>) -> Seq<
    Datum,
> {
    key + calls.map_values(|c: AggCall| to_datum(agg_value(c, group)))
}

/// One output row per run, in input order.
pub open spec fn group_out_rows(
    rows: Seq<Seq<Datum>>,
    keys: Seq<InputRef>,
    calls: Seq<AggCall>,
) -> Seq<Seq<Datum>> {
    runs(rows, keys).map_values(|g: Seq<Seq<Datum>>| out_row(key_of(g[0], keys), g, calls))
}

/// The rows that aggregating `rows` produces. Without a group key the whole
/// input is one group, so even an empty input gives one row.
pub open spec fn sort_agg_rows(rows: Seq<Seq<Datum>>, keys: Seq<InputRef>, calls: Seq<AggCall>) -> Seq<
    Seq<Datum>,
> {
    if keys.len() == 0 && rows.len() == 0 {
        seq![out_row(Seq::empty(), Seq::empty(), calls)]
    } else {
        group_out_rows(rows, keys, calls)
    }
}

/// Whether every aggregate of a group stays within 64 bits while it is folded.
pub open spec fn group_fits(group: Seq<Seq<Datum>>, calls: Seq<AggCall>) -> bool {
    forall|i: int| 0 <= i < calls.len() ==> agg_fits(calls[i], agg_init(calls[i]), group)
}

/// Whether every group of `rows` can be aggregated without overflow.
pub open spec fn sort_agg_fits(rows: Seq<Seq<Datum>>, keys: Seq<InputRef>, calls: Seq<AggCall>) -> bool {
    forall|t: int| 0 <= t < runs(rows, keys).len() ==> group_fits(#[trigger] runs(rows, keys)[t], calls)
}

/// `rows` cut into consecutive batches of `limit` rows; the last may be shorter.
pub open spec fn split_batches<T>(rows: Seq<T>, limit: nat) -> Seq<Seq<T>>
    decreases rows.len(),
{
    if rows.len() == 0 {
        Seq::empty()
    } else if limit == 0 || rows.len() <= limit {
        seq![rows]
    } else {
        seq![rows.take(limit as int)] + split_batches(rows.skip(limit as int), limit)
    }
}

/// The rows of a sequence of batches, in order.
pub open spec fn batch_rows(batches: Seq<DataChunk>) -> Seq<Seq<Datum>> {
    batches.map_values(|b: DataChunk| b.rows()).flatten()
}

/// Flattening sequences of one common length `l` gives `n * l` items.
pub proof fn lemma_flatten_uniform<T>(s: Seq<Seq<T>>, l: nat)
    requires
        forall|k: int| 0 <= k < s.len() ==> (#[trigger] s[k]).len() == l,
    ensures
        s.flatten().len() == s.len() * l,
    decreases s.len(),
{
    if s.len() > 0 {
        lemma_flatten_uniform(s.drop_first(), l);
        assert(s.flatten().len() == s.first().len() + s.drop_first().flatten().len());
        assert(s.len() * l == l + (s.len() - 1) * l) by (nonlinear_arith);
    }
}

/// Full batches followed by one last batch of `1..=limit` rows are what
/// `split_batches` makes of their concatenation.
pub proof fn lemma_split_batches_of(full: Seq<Seq<Seq<Datum>>>, last: Seq<Seq<Datum>>, limit: nat)
    requires
        forall|k: int| 0 <= k < full.len() ==> (#[trigger] full[k]).len() == limit,
        1 <= last.len() <= limit,
    ensures
        split_batches(full.flatten() + last, limit) == full.push(last),
    decreases full.len(),
{
    if full.len() == 0 {
        assert(full.flatten() + last =~= last);
        assert(full.push(last) =~= seq![last]);
    } else {
        let rest = full.drop_first();
        lemma_split_batches_of(rest, last, limit);
        lemma_flatten_uniform(rest, limit);
        let all = full.flatten() + last;
        assert(full.flatten() == full.first() + rest.flatten());
        assert(all.take(limit as int) =~= full.first());
        assert(all.skip(limit as int) =~= rest.flatten() + last);
        assert(seq![full.first()] + rest.push(last) =~= full.push(last));
    }
}

/// If a sequence of rows can be aggregated, so can each of its prefixes.
pub proof fn lemma_fits_prefix(
    p: Seq<Seq<Datum>>,
    y: Seq<Seq<Datum>>,
    keys: Seq<InputRef>,
    calls: Seq<AggCall>,
)
    requires
        sort_agg_fits(p + y, keys, calls),
    ensures
        sort_agg_fits(p, keys, calls),
{
    if p.len() > 0 {
        lemma_runs_prefix(p, y, keys);
        let g = runs(p, keys);
        let h = runs(p + y, keys);
        assert forall|t: int| 0 <= t < g.len() implies group_fits(#[trigger] g[t], calls) by {
            assert(group_fits(h[t], calls));
            if t == g.len() - 1 {
                let whole = h[t];
                let n = g.last().len() as int;
                assert(whole =~= whole.subrange(0, n) + whole.subrange(n, whole.len() as int));
                assert forall|i: int| 0 <= i < calls.len() implies agg_fits(
                    calls[i],
                    agg_init(calls[i]),
                    g[t],
                ) by {
                    lemma_agg_fold_append(
                        calls[i],
                        agg_init(calls[i]),
                        whole.subrange(0, n),
                        whole.subrange(n, whole.len() as int),
                    );
                }
            }
        }
    }
}

/// The rows of the first `i` chunks are a prefix of the rows of all of them.
pub proof fn lemma_all_rows_prefix(chunks: Seq<DataChunk>, i: int)
    requires
        0 <= i <= chunks.len(),
    ensures
        all_rows(chunks.take(i)).len() <= all_rows(chunks).len(),
        all_rows(chunks) == all_rows(chunks.take(i)) + all_rows(chunks).subrange(
            all_rows(chunks.take(i)).len() as int,
            all_rows(chunks).len() as int,
        ),
    decreases chunks.len() - i,
{
    if i == chunks.len() {
        assert(chunks.take(i) =~= chunks);
        assert(all_rows(chunks) =~= all_rows(chunks) + all_rows(chunks).subrange(
            all_rows(chunks).len() as int,
            all_rows(chunks).len() as int,
        ));
    } else {
        lemma_all_rows_prefix(chunks, i + 1);
        assert(chunks.take(i + 1).drop_last() =~= chunks.take(i));
        let a = all_rows(chunks.take(i));
        let b = all_rows(chunks.take(i + 1));
        let all = all_rows(chunks);
        assert(all =~= a + all.subrange(a.len() as int, all.len() as int));
    }
}


/// Every batch is well-formed, fully visible and `width` columns wide.
pub open spec fn batches_wf(batches: Seq<DataChunk>, width: nat) -> bool {
    forall|k: int|
        0 <= k < batches.len() ==> {
            let b = #[trigger] batches[k];
            &&& b.wf()
            &&& b.all_visible()
            &&& b.width() == width
            &&& b.visible_rows() == b.rows()
        }
}

} // verus!
