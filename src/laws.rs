//! Laws of sort aggregation, stated over the output model and proved.
use vstd::prelude::*;

use crate::agg::{agg_fold, agg_init, agg_step, agg_value, to_datum, AggCall, AggKind};
use crate::chunk::{DataChunk, Datum};
use crate::output::{all_rows, group_out_rows, out_row, sort_agg_fits, sort_agg_rows, split_batches};
use crate::runs::{
    key_of, lemma_runs_maximal, lemma_runs_of_distinct_neighbours, lemma_runs_shape, runs, same_key,
};
use crate::types::InputRef;

verus! {

/// Every maximal run of equal-key rows of the input gives exactly one output
/// row, holding the run's key followed by the aggregates over exactly the rows
/// of that run. The runs cover the input in order, and neighbouring runs
/// differ in key, so a run that spans chunks is still one run.
pub proof fn lemma_one_row_per_run(rows: Seq<Seq<Datum>>, keys: Seq<InputRef>, calls: Seq<AggCall>)
    requires
        keys.len() > 0 || rows.len() > 0,
    ensures
        runs(rows, keys).flatten() == rows,
        forall|t: int| 0 <= t < runs(rows, keys).len() ==> #[trigger] runs(rows, keys)[t].len() > 0,
        forall|t: int, u: int|
            0 <= t < runs(rows, keys).len() && 0 <= u < runs(rows, keys)[t].len() ==> same_key(
                #[trigger] runs(rows, keys)[t][u],
                runs(rows, keys)[t][0],
                keys,
            ),
        forall|t: int|
            0 <= t < runs(rows, keys).len() - 1 ==> !same_key(
                (#[trigger] runs(rows, keys)[t]).last(),
                runs(rows, keys)[t + 1][0],
                keys,
            ),
        sort_agg_rows(rows, keys, calls).len() == runs(rows, keys).len(),
        forall|t: int|
            0 <= t < runs(rows, keys).len() ==> #[trigger] sort_agg_rows(rows, keys, calls)[t]
                == out_row(key_of(runs(rows, keys)[t][0], keys), runs(rows, keys)[t], calls),
{
    lemma_runs_shape(rows, keys);
    lemma_runs_maximal(rows, keys);
}

/// The output depends on the input rows alone, not on how they are cut into chunks.
pub proof fn lemma_chunking_irrelevant(
    a: Seq<DataChunk>,
    b: Seq<DataChunk>,
    keys: Seq<InputRef>,
    calls: Seq<AggCall>,
    limit: nat,
)
    requires
        all_rows(a) == all_rows(b),
    ensures
        split_batches(sort_agg_rows(all_rows(a), keys, calls), limit) == split_batches(
            sort_agg_rows(all_rows(b), keys, calls),
            limit,
        ),
        sort_agg_fits(all_rows(a), keys, calls) == sort_agg_fits(all_rows(b), keys, calls),
{
}

/// With a batch size of at least one, every batch but the last holds exactly
/// `limit` rows, the last holds between one and `limit`, the batches hold all
/// rows in order, and there is no batch only when there is no row.
pub proof fn lemma_batch_sizes<T>(rows: Seq<T>, limit: nat)
    requires
        limit >= 1,
    ensures
        split_batches(rows, limit).flatten() == rows,
        forall|k: int|
            0 <= k < split_batches(rows, limit).len() - 1 ==> (#[trigger] split_batches(
                rows,
                limit,
            )[k]).len() == limit,
        split_batches(rows, limit).len() > 0 ==> 1 <= split_batches(rows, limit).last().len()
            <= limit,
        split_batches(rows, limit).len() == 0 <==> rows.len() == 0,
    decreases rows.len(),
{
    let b = split_batches(rows, limit);
    if rows.len() == 0 {
    } else if rows.len() <= limit {
        assert(b == seq![rows]);
        b.lemma_flatten_one_element();
    } else {
        let rest = rows.skip(limit as int);
        lemma_batch_sizes(rest, limit);
        let tail = split_batches(rest, limit);
        assert(b == seq![rows.take(limit as int)] + tail);
        assert(b.first() == rows.take(limit as int));
        assert(b.drop_first() =~= tail);
        assert(rows.take(limit as int) + rest =~= rows);
        assert forall|k: int| 0 <= k < b.len() - 1 implies (#[trigger] b[k]).len() == limit by {
            if k > 0 {
                assert(b[k] == tail[k - 1]);
            }
        }
        assert(b.last() == tail.last());
    }
}

/// The aggregation hands out no batch at all exactly when it has a group key
/// and its input has no row.
pub proof fn lemma_no_batch_iff_grouped_and_empty(
    rows: Seq<Seq<Datum>>,
    keys: Seq<InputRef>,
    calls: Seq<AggCall>,
    limit: nat,
)
    requires
        limit >= 1,
    ensures
        split_batches(sort_agg_rows(rows, keys, calls), limit).len() == 0 <==> (keys.len() > 0
            && rows.len() == 0),
{
    lemma_batch_sizes(sort_agg_rows(rows, keys, calls), limit);
    lemma_runs_shape(rows, keys);
}

/// The key columns of the output, as references into an output row.
pub open spec fn output_key_refs(keys: Seq<InputRef>) -> Seq<InputRef> {
    Seq::new(
        keys.len(),
        |j: int| InputRef { index: j as usize, return_type: keys[j].return_type },
    )
}

/// Grouping the output again by its key columns puts every output row in a run
/// of its own, so aggregating the output once more finds the same groups:
/// the output is fully reduced.
pub proof fn lemma_output_is_reduced(rows: Seq<Seq<Datum>>, keys: Seq<InputRef>, calls: Seq<AggCall>)
    requires
        keys.len() <= usize::MAX,
    ensures
        runs(sort_agg_rows(rows, keys, calls), output_key_refs(keys)) == sort_agg_rows(
            rows,
            keys,
            calls,
        ).map_values(|r: Seq<Datum>| seq![r]),
        runs(sort_agg_rows(rows, keys, calls), output_key_refs(keys)).flatten() == sort_agg_rows(
            rows,
            keys,
            calls,
        ),
{
    let out = sort_agg_rows(rows, keys, calls);
    let okeys = output_key_refs(keys);
    if keys.len() > 0 || rows.len() > 0 {
        lemma_one_row_per_run(rows, keys, calls);
        let g = runs(rows, keys);
        assert forall|t: int| 0 <= t < out.len() implies key_of(#[trigger] out[t], okeys) == key_of(
            g[t][0],
            keys,
        ) by {
            lemma_output_key(rows, keys, calls, t);
        }
        assert forall|i: int| 0 < i < out.len() implies !same_key(#[trigger] out[i - 1], out[i], okeys) by {
            assert(key_of(out[i - 1], okeys) == key_of(g[i - 1][0], keys));
            assert(key_of(out[i], okeys) == key_of(g[i][0], keys));
            assert(same_key(g[i - 1][g[i - 1].len() - 1], g[i - 1][0], keys));
        }
    }
    lemma_runs_of_distinct_neighbours(out, okeys);
    lemma_runs_shape(out, okeys);
}

/// The output key columns of output row `t` hold the key of run `t`.
proof fn lemma_output_key(rows: Seq<Seq<Datum>>, keys: Seq<InputRef>, calls: Seq<AggCall>, t: int)
    requires
        keys.len() > 0 || rows.len() > 0,
        keys.len() <= usize::MAX,
        0 <= t < runs(rows, keys).len(),
    ensures
        key_of(sort_agg_rows(rows, keys, calls)[t], output_key_refs(keys)) == key_of(
            runs(rows, keys)[t][0],
            keys,
        ),
{
    lemma_one_row_per_run(rows, keys, calls);
    let g = runs(rows, keys);
    let k = key_of(g[t][0], keys);
    let row = sort_agg_rows(rows, keys, calls)[t];
    let okeys = output_key_refs(keys);
    assert(row == out_row(k, g[t], calls));
    assert forall|j: int| 0 <= j < keys.len() implies #[trigger] key_of(row, okeys)[j] == k[j] by {
        assert(okeys[j].index == j);
        assert(row[j] == k[j]);
    }
    assert(key_of(row, okeys) =~= k);
}

/// Where run `t` begins in the input: the number of rows of the runs before it.
pub open spec fn run_start(rows: Seq<Seq<Datum>>, keys: Seq<InputRef>, t: int) -> int {
    runs(rows, keys).take(t).flatten().len() as int
}

/// Item `u` of part `t` sits at the number of items of the parts before it, plus `u`.
proof fn lemma_flatten_index<T>(s: Seq<Seq<T>>, t: int, u: int)
    requires
        0 <= t < s.len(),
        0 <= u < s[t].len(),
    ensures
        s.take(t).flatten().len() + u < s.flatten().len(),
        s.flatten()[s.take(t).flatten().len() + u] == s[t][u],
{
    assert(s =~= s.take(t) + s.skip(t));
    vstd::seq_lib::lemma_flatten_concat(s.take(t), s.skip(t));
    assert(s.skip(t).first() == s[t]);
    assert(s.skip(t).flatten() == s[t] + s.skip(t).drop_first().flatten());
}

/// The start of run `t + 1` is the start of run `t` plus the length of run `t`.
proof fn lemma_run_start_next(rows: Seq<Seq<Datum>>, keys: Seq<InputRef>, t: int)
    requires
        0 <= t < runs(rows, keys).len(),
    ensures
        run_start(rows, keys, t + 1) == run_start(rows, keys, t) + runs(rows, keys)[t].len(),
{
    let g = runs(rows, keys);
    assert(g.take(t + 1) =~= g.take(t).push(g[t]));
    g.take(t).lemma_flatten_push(g[t]);
}

/// Runs start further into the input the later they come.
proof fn lemma_run_start_increasing(rows: Seq<Seq<Datum>>, keys: Seq<InputRef>, t: int, u: int)
    requires
        0 <= t < u < runs(rows, keys).len(),
    ensures
        run_start(rows, keys, t) < run_start(rows, keys, u),
    decreases u - t,
{
    lemma_runs_shape(rows, keys);
    lemma_run_start_next(rows, keys, u - 1);
    assert(runs(rows, keys)[u - 1].len() > 0);
    if t < u - 1 {
        lemma_run_start_increasing(rows, keys, t, u - 1);
    }
}

/// Output row `t` carries the key of the input row at which run `t` begins,
/// that row is the first of its run, and the runs begin in increasing
/// positions: output keys come in the order in which they first appear in the input.
pub proof fn lemma_output_follows_input_order(
    rows: Seq<Seq<Datum>>,
    keys: Seq<InputRef>,
    calls: Seq<AggCall>,
)
    requires
        keys.len() > 0 || rows.len() > 0,
        keys.len() <= usize::MAX,
    ensures
        forall|t: int|
            0 <= t < runs(rows, keys).len() ==> {
                &&& 0 <= #[trigger] run_start(rows, keys, t) < rows.len()
                &&& key_of(sort_agg_rows(rows, keys, calls)[t], output_key_refs(keys)) == key_of(
                    rows[run_start(rows, keys, t)],
                    keys,
                )
                &&& t > 0 ==> !same_key(
                    rows[run_start(rows, keys, t) - 1],
                    rows[run_start(rows, keys, t)],
                    keys,
                )
            },
        forall|t: int, u: int|
            0 <= t < u < runs(rows, keys).len() ==> #[trigger] run_start(rows, keys, t)
                < #[trigger] run_start(rows, keys, u),
{
    lemma_one_row_per_run(rows, keys, calls);
    let g = runs(rows, keys);
    let out = sort_agg_rows(rows, keys, calls);
    assert forall|t: int| 0 <= t < g.len() implies {
        &&& 0 <= #[trigger] run_start(rows, keys, t) < rows.len()
        &&& key_of(out[t], output_key_refs(keys)) == key_of(rows[run_start(rows, keys, t)], keys)
        &&& t > 0 ==> !same_key(
            rows[run_start(rows, keys, t) - 1],
            rows[run_start(rows, keys, t)],
            keys,
        )
    } by {
        lemma_flatten_index(g, t, 0);
        lemma_output_key(rows, keys, calls, t);
        if t > 0 {
            lemma_run_start_next(rows, keys, t - 1);
            lemma_flatten_index(g, t - 1, g[t - 1].len() - 1);
        }
    }
    assert forall|t: int, u: int| 0 <= t < u < g.len() implies #[trigger] run_start(rows, keys, t)
        < #[trigger] run_start(rows, keys, u) by {
        lemma_run_start_increasing(rows, keys, t, u);
    }
}


/// Without a group key, an input without rows (no chunk, or only empty ones)
/// still gives one batch of one row: each aggregate over no rows, so a count is zero.
pub proof fn lemma_global_aggregate_of_nothing(chunks: Seq<DataChunk>, calls: Seq<AggCall>, limit: nat)
    requires
        all_rows(chunks).len() == 0,
        limit >= 1,
    ensures
        split_batches(sort_agg_rows(all_rows(chunks), Seq::empty(), calls), limit) == seq![
            seq![calls.map_values(|c: AggCall| to_datum(agg_init(c)))],
        ],
        forall|i: int|
            0 <= i < calls.len() && (#[trigger] calls[i]).kind is Count ==> to_datum(agg_init(calls[i]))
                == Some(0i64),
{
    let out = sort_agg_rows(all_rows(chunks), Seq::empty(), calls);
    assert(Seq::<Datum>::empty() + calls.map_values(
        |c: AggCall| to_datum(agg_value(c, Seq::empty())),
    ) =~= calls.map_values(|c: AggCall| to_datum(agg_init(c))));
    assert(out.len() == 1);
}

/// With a group key, an input without rows gives no batch at all.
pub proof fn lemma_grouped_aggregate_of_nothing(
    chunks: Seq<DataChunk>,
    keys: Seq<InputRef>,
    calls: Seq<AggCall>,
    limit: nat,
)
    requires
        all_rows(chunks).len() == 0,
        keys.len() > 0,
    ensures
        split_batches(sort_agg_rows(all_rows(chunks), keys, calls), limit).len() == 0,
{
    assert(runs(all_rows(chunks), keys).len() == 0);
}


/// The order of datums used to sort rows: NULL first, then by value.
pub open spec fn datum_lt(a: Datum, b: Datum) -> bool {
    match (a, b) {
        (None, Some(_)) => true,
        (Some(x), Some(y)) => x < y,
        _ => false,
    }
}

/// Lexicographic order on key tuples.
pub open spec fn key_le(a: Seq<Datum>, b: Seq<Datum>) -> bool
    decreases a.len(),
{
    if a.len() == 0 {
        true
    } else if b.len() == 0 {
        false
    } else if a[0] == b[0] {
        key_le(a.drop_first(), b.drop_first())
    } else {
        datum_lt(a[0], b[0])
    }
}

/// Whether the rows are sorted by their keys.
pub open spec fn sorted_by_key(rows: Seq<Seq<Datum>>, keys: Seq<InputRef>) -> bool {
    forall|i: int, j: int|
        0 <= i < j < rows.len() ==> key_le(
            key_of(#[trigger] rows[i], keys),
            key_of(#[trigger] rows[j], keys),
        )
}

/// Whether rows with equal keys stand together: a row between two rows of one
/// key has that key too. Rows sorted by their keys are grouped.
pub open spec fn keys_grouped(rows: Seq<Seq<Datum>>, keys: Seq<InputRef>) -> bool {
    forall|i: int, j: int, k: int|
        #![trigger rows[i], rows[j], rows[k]]
        0 <= i < j < k < rows.len() && same_key(rows[i], rows[k], keys) ==> same_key(
            rows[i],
            rows[j],
            keys,
        )
}

/// Two tuples of one length that are each at most the other are equal.
proof fn lemma_key_le_antisymmetric(a: Seq<Datum>, b: Seq<Datum>)
    requires
        a.len() == b.len(),
        key_le(a, b),
        key_le(b, a),
    ensures
        a == b,
    decreases a.len(),
{
    if a.len() > 0 {
        if a[0] == b[0] {
            lemma_key_le_antisymmetric(a.drop_first(), b.drop_first());
            assert(a =~= seq![a[0]] + a.drop_first());
            assert(b =~= seq![b[0]] + b.drop_first());
        }
    } else {
        assert(a =~= b);
    }
}

/// Rows sorted by their keys are grouped.
pub proof fn lemma_sorted_rows_are_grouped(rows: Seq<Seq<Datum>>, keys: Seq<InputRef>)
    requires
        sorted_by_key(rows, keys),
    ensures
        keys_grouped(rows, keys),
{
    assert forall|i: int, j: int, k: int|
        #![trigger rows[i], rows[j], rows[k]]
        0 <= i < j < k < rows.len() && same_key(rows[i], rows[k], keys) implies same_key(
            rows[i],
            rows[j],
            keys,
        ) by {
        assert(key_le(key_of(rows[i], keys), key_of(rows[j], keys)));
        assert(key_le(key_of(rows[j], keys), key_of(rows[k], keys)));
        lemma_key_le_antisymmetric(key_of(rows[i], keys), key_of(rows[j], keys));
    }
}

/// Every row has the key of some run.
proof fn lemma_row_in_some_run(rows: Seq<Seq<Datum>>, keys: Seq<InputRef>)
    ensures
        forall|j: int|
            0 <= j < rows.len() ==> exists|t: int|
                0 <= t < runs(rows, keys).len() && same_key(
                    #[trigger] rows[j],
                    runs(rows, keys)[t][0],
                    keys,
                ),
    decreases rows.len(),
{
    if rows.len() > 0 {
        let p = rows.drop_last();
        lemma_row_in_some_run(p, keys);
        lemma_runs_shape(rows, keys);
        lemma_runs_shape(p, keys);
        let g = runs(rows, keys);
        let prev = runs(p, keys);
        assert forall|j: int| 0 <= j < rows.len() implies exists|t: int|
            0 <= t < g.len() && same_key(#[trigger] rows[j], g[t][0], keys) by {
            if j == rows.len() - 1 {
                assert(same_key(g.last()[g.last().len() - 1], g.last()[0], keys));
                assert(0 <= g.len() - 1 < g.len());
            } else {
                assert(rows[j] == p[j]);
                let t = choose|t: int| 0 <= t < prev.len() && same_key(p[j], prev[t][0], keys);
                assert(g[t][0] == prev[t][0]);
            }
        }
    }
}

/// Over rows whose equal keys stand together, the output rows carry each key
/// of the input exactly once, in the order in which the keys first appear:
/// output row `t` has the key of the row where run `t` starts, no earlier row
/// has that key, no two output rows share a key, and every input key appears.
pub proof fn lemma_output_keys_are_the_distinct_input_keys(
    rows: Seq<Seq<Datum>>,
    keys: Seq<InputRef>,
    calls: Seq<AggCall>,
)
    requires
        keys_grouped(rows, keys),
        keys.len() > 0 || rows.len() > 0,
        keys.len() <= usize::MAX,
    ensures
        sort_agg_rows(rows, keys, calls).len() == runs(rows, keys).len(),
        forall|t: int|
            0 <= t < runs(rows, keys).len() ==> key_of(
                #[trigger] sort_agg_rows(rows, keys, calls)[t],
                output_key_refs(keys),
            ) == key_of(rows[run_start(rows, keys, t)], keys),
        forall|t: int, j: int|
            0 <= t < runs(rows, keys).len() && 0 <= j < run_start(rows, keys, t) ==> key_of(
                #[trigger] rows[j],
                keys,
            ) != key_of(#[trigger] sort_agg_rows(rows, keys, calls)[t], output_key_refs(keys)),
        forall|t: int, u: int|
            0 <= t < u < runs(rows, keys).len() ==> key_of(
                #[trigger] sort_agg_rows(rows, keys, calls)[t],
                output_key_refs(keys),
            ) != key_of(#[trigger] sort_agg_rows(rows, keys, calls)[u], output_key_refs(keys)),
        forall|j: int|
            0 <= j < rows.len() ==> exists|t: int|
                0 <= t < runs(rows, keys).len() && key_of(#[trigger] rows[j], keys) == key_of(
                    sort_agg_rows(rows, keys, calls)[t],
                    output_key_refs(keys),
                ),
{
    let g = runs(rows, keys);
    let out = sort_agg_rows(rows, keys, calls);
    let okeys = output_key_refs(keys);
    lemma_one_row_per_run(rows, keys, calls);
    lemma_output_follows_input_order(rows, keys, calls);
    assert forall|t: int, j: int|
        0 <= t < g.len() && 0 <= j < run_start(rows, keys, t) implies key_of(
        #[trigger] rows[j],
        keys,
    ) != key_of(#[trigger] out[t], okeys) by {
        let st = run_start(rows, keys, t);
        assert(0 <= st < rows.len());
        if t == 0 {
            assert(g.take(0) =~= Seq::<Seq<Seq<Datum>>>::empty());
            assert(st == 0);
        }
        assert(t > 0);
        assert(!same_key(rows[st - 1], rows[st], keys));
        if key_of(rows[j], keys) == key_of(out[t], okeys) {
            if j < st - 1 {
                assert(same_key(rows[j], rows[st], keys));
                assert(same_key(rows[j], rows[st - 1], keys));
            }
        }
    }
    assert forall|t: int, u: int| 0 <= t < u < g.len() implies key_of(#[trigger] out[t], okeys)
        != key_of(#[trigger] out[u], okeys) by {
        let st = run_start(rows, keys, t);
        assert(run_start(rows, keys, t) < run_start(rows, keys, u));
        assert(0 <= st < rows.len());
        assert(key_of(rows[st], keys) != key_of(out[u], okeys));
    }
    lemma_row_in_some_run(rows, keys);
    assert forall|j: int| 0 <= j < rows.len() implies exists|t: int|
        0 <= t < g.len() && key_of(#[trigger] rows[j], keys) == key_of(out[t], okeys) by {
        let t = choose|t: int| 0 <= t < g.len() && same_key(rows[j], g[t][0], keys);
        lemma_output_key(rows, keys, calls, t);
    }
}


/// The aggregate that folds already-aggregated values of `call` held in
/// column `index`: counts add up, sums, minima and maxima fold as themselves.
pub open spec fn refold_call(call: AggCall, index: int) -> AggCall {
    AggCall {
        kind: if call.kind is Count {
            AggKind::Sum
        } else {
            call.kind
        },
        arg: Some(InputRef { index: index as usize, return_type: call.spec_return_type() }),
    }
}

/// One re-folding aggregate per aggregate, reading the output column after the `n_keys` key columns.
pub open spec fn refold_calls(n_keys: nat, calls: Seq<AggCall>) -> Seq<AggCall> {
    Seq::new(calls.len(), |i: int| refold_call(calls[i], n_keys + i))
}

/// Re-folding one output row on its own gives the row back.
proof fn lemma_refold_row(
    key: Seq<Datum>,
    group: Seq<Seq<Datum>>,
    keys: Seq<InputRef>,
    calls: Seq<AggCall>,
)
    requires
        key.len() == keys.len(),
        keys.len() + calls.len() <= usize::MAX,
    ensures
        out_row(
            key_of(out_row(key, group, calls), output_key_refs(keys)),
            seq![out_row(key, group, calls)],
            refold_calls(keys.len(), calls),
        ) == out_row(key, group, calls),
{
    let o = out_row(key, group, calls);
    let okeys = output_key_refs(keys);
    let mc = refold_calls(keys.len(), calls);
    let nk = keys.len() as int;
    assert forall|j: int| 0 <= j < nk implies #[trigger] key_of(o, okeys)[j] == key[j] by {
        assert(okeys[j].index == j);
    }
    assert(key_of(o, okeys) =~= key);
    let one = seq![o];
    assert forall|i: int| 0 <= i < calls.len() implies #[trigger] to_datum(agg_value(mc[i], one))
        == o[nk + i] by {
        assert(one.drop_last() =~= Seq::<Seq<Datum>>::empty());
        assert(agg_fold(mc[i], agg_init(mc[i]), one.drop_last()) == agg_init(mc[i]));
        assert(one.last() == o);
        assert(agg_value(mc[i], one) == agg_step(mc[i], agg_init(mc[i]), o));
        assert(o[nk + i] == to_datum(agg_value(calls[i], group)));
    }
    let back = out_row(key_of(o, okeys), one, mc);
    assert(back =~= o);
}

/// Aggregating the output once more, grouped by its key columns and
/// re-folding each aggregate (a count as the sum of counts), gives the output
/// back row for row: every output row is a group of its own.
pub proof fn lemma_refolding_reproduces_output(
    rows: Seq<Seq<Datum>>,
    keys: Seq<InputRef>,
    calls: Seq<AggCall>,
)
    requires
        keys.len() + calls.len() <= usize::MAX,
    ensures
        sort_agg_rows(
            sort_agg_rows(rows, keys, calls),
            output_key_refs(keys),
            refold_calls(keys.len(), calls),
        ) == sort_agg_rows(rows, keys, calls),
{
    let out = sort_agg_rows(rows, keys, calls);
    let okeys = output_key_refs(keys);
    let mc = refold_calls(keys.len(), calls);
    lemma_output_is_reduced(rows, keys, calls);
    let again = sort_agg_rows(out, okeys, mc);
    if keys.len() == 0 {
        if rows.len() > 0 {
            lemma_one_row_per_run(rows, keys, calls);
            lemma_runs_shape(rows, keys);
        }
        assert(out.len() > 0);
    }
    assert(okeys.len() == keys.len());
    assert(again == group_out_rows(out, okeys, mc));
    assert(again.len() == out.len());
    let g = runs(rows, keys);
    assert forall|t: int| 0 <= t < out.len() implies #[trigger] again[t] == out[t] by {
        if keys.len() == 0 && rows.len() == 0 {
            lemma_refold_row(Seq::empty(), Seq::empty(), keys, calls);
        } else {
            lemma_one_row_per_run(rows, keys, calls);
            lemma_refold_row(key_of(g[t][0], keys), g[t], keys, calls);
        }
    }
    assert(again =~= out);
}


/// Over input sorted by the key, the output is fully reduced: its rows carry
/// pairwise distinct keys, and re-aggregating it by those keys, re-folding
/// every aggregate, gives it back row for row.
pub proof fn lemma_sorted_input_gives_reduced_output(
    rows: Seq<Seq<Datum>>,
    keys: Seq<InputRef>,
    calls: Seq<AggCall>,
)
    requires
        sorted_by_key(rows, keys),
        keys.len() > 0 || rows.len() > 0,
        keys.len() + calls.len() <= usize::MAX,
    ensures
        forall|t: int, u: int|
            0 <= t < u < sort_agg_rows(rows, keys, calls).len() ==> key_of(
                #[trigger] sort_agg_rows(rows, keys, calls)[t],
                output_key_refs(keys),
            ) != key_of(#[trigger] sort_agg_rows(rows, keys, calls)[u], output_key_refs(keys)),
        sort_agg_rows(
            sort_agg_rows(rows, keys, calls),
            output_key_refs(keys),
            refold_calls(keys.len(), calls),
        ) == sort_agg_rows(rows, keys, calls),
{
    lemma_sorted_rows_are_grouped(rows, keys);
    lemma_output_keys_are_the_distinct_input_keys(rows, keys, calls);
    lemma_refolding_reproduces_output(rows, keys, calls);
}

} // verus!
