//! The steps of a running aggregation: consuming row ranges, closing groups,
//! filling batches, and the final flush. Each step keeps `RunState::inv`.
use vstd::prelude::*;

use crate::agg::{
    agg_fits, agg_fold, agg_init, agg_value, lemma_agg_fold_append, to_datum, AggCall, AggState,
};
use crate::chunk::{DataChunk, Datum};
use crate::error::SortAggError;
use crate::grouper::{changes_at, EqGroups, SortedGrouper};
use crate::output::{
    batch_rows, batches_wf, group_fits, group_out_rows, lemma_fits_prefix, lemma_flatten_uniform,
    lemma_split_batches_of, out_row, sort_agg_fits, sort_agg_rows, split_batches,
};
use crate::runs::{
    key_of, lemma_runs_extend_new, lemma_runs_extend_same, lemma_runs_shape, runs, same_key,
};
use crate::types::InputRef;

verus! {

/// The rows held by column builders: row `r` takes the `r`-th value of every
/// group-key builder, then of every aggregate builder.
pub open spec fn builder_rows(gb: Seq<Vec<Datum>>, ab: Seq<Vec<Datum>>, n: nat) -> Seq<Seq<Datum>> {
    Seq::new(
        n,
        |r: int|
            Seq::new(
                gb.len() + ab.len(),
                |c: int|
                    if c < gb.len() {
                        gb[c]@[r]
                    } else {
                        ab[c - gb.len()]@[r]
                    },
            ),
    )
}

/// How many runs of `p` have had their output row emitted: all but the last
/// while it is open, all once it has been closed.
pub open spec fn emitted_count(p: Seq<Seq<Datum>>, keys: Seq<InputRef>, closed: bool) -> int {
    if p.len() == 0 {
        0
    } else if closed {
        runs(p, keys).len() as int
    } else {
        runs(p, keys).len() - 1
    }
}

/// The rows of the run that is still open (none once it has been closed).
pub open spec fn open_rows(p: Seq<Seq<Datum>>, keys: Seq<InputRef>, closed: bool) -> Seq<
    Seq<Datum>,
> {
    if p.len() == 0 || closed {
        Seq::empty()
    } else {
        runs(p, keys).last()
    }
}

/// The resumable state of one aggregation over a stream of chunks.
pub(crate) struct RunState {
    pub(crate) sorted_groupers: Vec<SortedGrouper>,
    pub(crate) agg_states: Vec<AggState>,
    pub(crate) group_builders: Vec<Vec<Datum>>,
    pub(crate) agg_builders: Vec<Vec<Datum>>,
    pub(crate) batches: Vec<DataChunk>,
    pub(crate) left_capacity: usize,
}

impl RunState {
    /// The state after consuming the rows `p`, with the last run closed or
    /// not, once the batches `done` have been handed out: those batches, the
    /// ones held, then the rows in the builders are the output rows of the
    /// runs closed so far.
    pub(crate) open spec fn inv(
        &self,
        keys: Seq<InputRef>,
        calls: Seq<AggCall>,
        limit: nat,
        p: Seq<Seq<Datum>>,
        closed: bool,
        done: Seq<DataChunk>,
    ) -> bool {
        let nk = keys.len();
        let na = calls.len();
        let all = done + self.batches@;
        let m = (limit - self.left_capacity) as nat;
        &&& limit >= 1
        &&& 0 < self.left_capacity <= limit
        &&& self.sorted_groupers@.len() == nk
        &&& self.agg_states@.len() == na
        &&& self.group_builders@.len() == nk
        &&& self.agg_builders@.len() == na
        &&& forall|i: int| 0 <= i < na ==> (#[trigger] self.agg_states@[i]).call == calls[i]
        &&& forall|j: int| 0 <= j < nk ==> (#[trigger] self.group_builders@[j])@.len() == m
        &&& forall|i: int| 0 <= i < na ==> (#[trigger] self.agg_builders@[i])@.len() == m
        &&& forall|k: int|
            0 <= k < all.len() ==> {
                let b = #[trigger] all[k];
                &&& b.wf()
                &&& b.all_visible()
                &&& b.width() == nk + na
                &&& b.visibility@.len() == limit
                &&& b.visible_rows() == b.rows()
            }
        &&& batch_rows(all) + builder_rows(self.group_builders@, self.agg_builders@, m)
            == group_out_rows(p, keys, calls).take(emitted_count(p, keys, closed))
        &&& forall|t: int|
            0 <= t < emitted_count(p, keys, closed) ==> group_fits(#[trigger] runs(p, keys)[t], calls)
        &&& forall|i: int|
            0 <= i < na ==> (#[trigger] self.agg_states@[i]).value() == agg_value(
                calls[i],
                open_rows(p, keys, closed),
            ) && agg_fits(calls[i], agg_init(calls[i]), open_rows(p, keys, closed))
        &&& p.len() == 0 ==> forall|j: int|
            0 <= j < nk ==> (#[trigger] self.sorted_groupers@[j]).last is None
        &&& p.len() > 0 ==> forall|j: int|
            0 <= j < nk ==> (#[trigger] self.sorted_groupers@[j]).last == Some(
                key_of(p.last(), keys)[j],
            )
        &&& closed ==> p.len() > 0
    }
}

/// Fresh, empty builders: one per key column and one per aggregate.
pub(crate) fn create_builders(n_keys: usize, n_aggs: usize) -> (r: (Vec<Vec<Datum>>, Vec<Vec<Datum>>))
    ensures
        r.0@.len() == n_keys,
        r.1@.len() == n_aggs,
        forall|j: int| 0 <= j < n_keys ==> (#[trigger] r.0@[j])@.len() == 0,
        forall|i: int| 0 <= i < n_aggs ==> (#[trigger] r.1@[i])@.len() == 0,
{
    let mut group_builders: Vec<Vec<Datum>> = Vec::new();
    let mut j: usize = 0;
    while j < n_keys
        invariant
            j <= n_keys,
            group_builders@.len() == j,
            forall|k: int| 0 <= k < j ==> (#[trigger] group_builders@[k])@.len() == 0,
        decreases n_keys - j,
    {
        group_builders.push(Vec::new());
        j += 1;
    }
    let mut agg_builders: Vec<Vec<Datum>> = Vec::new();
    let mut i: usize = 0;
    while i < n_aggs
        invariant
            i <= n_aggs,
            agg_builders@.len() == i,
            forall|k: int| 0 <= k < i ==> (#[trigger] agg_builders@[k])@.len() == 0,
        decreases n_aggs - i,
    {
        agg_builders.push(Vec::new());
        i += 1;
    }
    (group_builders, agg_builders)
}

/// Appends each grouper's carried key value to its builder.
pub(crate) fn output_sorted_groupers(
    sorted_groupers: &Vec<SortedGrouper>,
    group_builders: &mut Vec<Vec<Datum>>,
)
    requires
        sorted_groupers@.len() == old(group_builders)@.len(),
    ensures
        final(group_builders)@.len() == old(group_builders)@.len(),
        forall|j: int|
            0 <= j < sorted_groupers@.len() ==> (#[trigger] final(group_builders)@[j])@ == old(
                group_builders,
            )@[j]@.push(
                match sorted_groupers@[j].last {
                    Some(v) => v,
                    None => None,
                },
            ),
{
    let ghost before = group_builders@;
    let mut j: usize = 0;
    while j < sorted_groupers.len()
        invariant
            sorted_groupers@.len() == before.len(),
            group_builders@.len() == before.len(),
            j <= before.len(),
            forall|k: int|
                0 <= k < j ==> (#[trigger] group_builders@[k])@ == before[k]@.push(
                    match sorted_groupers@[k].last {
                        Some(v) => v,
                        None => None,
                    },
                ),
            forall|k: int| j <= k < before.len() ==> #[trigger] group_builders@[k] == before[k],
        decreases before.len() - j,
    {
        sorted_groupers[j].output(&mut group_builders[j]);
        j += 1;
    }
}

/// Appends each aggregate's value to its builder and starts every aggregate afresh.
pub(crate) fn output_agg_states(agg_states: &mut Vec<AggState>, agg_builders: &mut Vec<Vec<Datum>>)
    requires
        old(agg_states)@.len() == old(agg_builders)@.len(),
    ensures
        final(agg_states)@.len() == old(agg_states)@.len(),
        final(agg_builders)@.len() == old(agg_builders)@.len(),
        forall|i: int|
            0 <= i < old(agg_states)@.len() ==> (#[trigger] final(agg_builders)@[i])@ == old(
                agg_builders,
            )@[i]@.push(to_datum(old(agg_states)@[i].value())),
        forall|i: int|
            0 <= i < old(agg_states)@.len() ==> (#[trigger] final(agg_states)@[i]).call == old(
                agg_states,
            )@[i].call && final(agg_states)@[i].value() == agg_init(old(agg_states)@[i].call),
{
    let ghost states0 = agg_states@;
    let ghost builders0 = agg_builders@;
    let mut i: usize = 0;
    while i < agg_states.len()
        invariant
            agg_states@.len() == states0.len(),
            agg_builders@.len() == builders0.len(),
            states0.len() == builders0.len(),
            i <= states0.len(),
            forall|k: int|
                0 <= k < i ==> (#[trigger] agg_builders@[k])@ == builders0[k]@.push(
                    to_datum(states0[k].value()),
                ),
            forall|k: int|
                0 <= k < i ==> (#[trigger] agg_states@[k]).call == states0[k].call
                    && agg_states@[k].value() == agg_init(states0[k].call),
            forall|k: int| i <= k < states0.len() ==> #[trigger] agg_builders@[k] == builders0[k],
            forall|k: int| i <= k < states0.len() ==> #[trigger] agg_states@[k] == states0[k],
        decreases states0.len() - i,
    {
        agg_states[i].output(&mut agg_builders[i]);
        let call = agg_states[i].call;
        agg_states[i] = AggState::new(call);
        i += 1;
    }
}


/// The columns of a batch: the key builders, then the aggregate builders.
pub(crate) fn concat_builders(group_builders: Vec<Vec<Datum>>, agg_builders: Vec<Vec<Datum>>) -> (r: Vec<
    Vec<Datum>,
>)
    ensures
        r@ == group_builders@ + agg_builders@,
{
    let mut columns = group_builders;
    let mut rest = agg_builders;
    columns.append(&mut rest);
    columns
}

/// Emits the output row of the open run, closing it; hands out the batch once it is full.
pub(crate) fn close_group(
    st: &mut RunState,
    limit: usize,
    Ghost(keys): Ghost<Seq<InputRef>>,
    Ghost(calls): Ghost<Seq<AggCall>>,
    Ghost(p): Ghost<Seq<Seq<Datum>>>,
    Ghost(done): Ghost<Seq<DataChunk>>,
)
    requires
        old(st).inv(keys, calls, limit as nat, p, false, done),
        p.len() > 0,
    ensures
        final(st).inv(keys, calls, limit as nat, p, true, done),
{
    let ghost g = runs(p, keys);
    let ghost m0 = (limit - st.left_capacity) as nat;
    let ghost rows0 = builder_rows(st.group_builders@, st.agg_builders@, m0);
    let ghost new_row = out_row(key_of(g.last()[0], keys), g.last(), calls);
    let ghost groupers = st.sorted_groupers@;
    let ghost states = st.agg_states@;
    proof {
        lemma_runs_shape(p, keys);
        assert(same_key(g.last()[g.last().len() - 1], g.last()[0], keys));
    }
    output_sorted_groupers(&st.sorted_groupers, &mut st.group_builders);
    output_agg_states(&mut st.agg_states, &mut st.agg_builders);
    let ghost m1 = m0 + 1;
    proof {
        let rows1 = builder_rows(st.group_builders@, st.agg_builders@, m1);
        let nk = keys.len() as int;
        assert forall|c: int| 0 <= c < new_row.len() implies rows1[m0 as int][c] == #[trigger] new_row[c] by {
            if c < nk {
                assert(groupers[c].last == Some(key_of(p.last(), keys)[c]));
            } else {
                assert(states[c - nk].value() == agg_value(calls[c - nk], g.last()));
            }
        }
        assert(rows1[m0 as int] =~= new_row);
        assert forall|r: int| 0 <= r < m0 implies #[trigger] rows1[r] == rows0[r] by {
            assert(rows1[r] =~= rows0[r]);
        }
        assert(rows1 =~= rows0.push(new_row));
        let all = group_out_rows(p, keys, calls);
        assert(all.take(g.len() - 1).push(new_row) =~= all.take(g.len() as int));
        assert forall|t: int| 0 <= t < g.len() implies group_fits(#[trigger] g[t], calls) by {
            if t == g.len() - 1 {
                assert forall|i: int| 0 <= i < calls.len() implies agg_fits(
                    calls[i],
                    agg_init(calls[i]),
                    g[t],
                ) by {
                    assert(states[i].call == calls[i]);
                }
            }
        }
    }
    st.left_capacity -= 1;
    if st.left_capacity == 0 {
        let (mut group_builders, mut agg_builders) = create_builders(
            st.group_builders.len(),
            st.agg_builders.len(),
        );
        std::mem::swap(&mut group_builders, &mut st.group_builders);
        std::mem::swap(&mut agg_builders, &mut st.agg_builders);
        let ghost full_rows = builder_rows(group_builders@, agg_builders@, limit as nat);
        let columns = concat_builders(group_builders, agg_builders);
        let output = DataChunk::new(columns, limit);
        let ghost old_batches = done + st.batches@;
        st.batches.push(output);
        proof {
            assert forall|r: int| 0 <= r < limit implies #[trigger] output.rows()[r] == full_rows[r] by {
                assert(output.rows()[r] =~= full_rows[r]);
            }
            assert(output.rows() =~= full_rows);
            assert(done + st.batches@ =~= old_batches.push(output));
            let b = (done + st.batches@).map_values(|b: DataChunk| b.rows());
            assert(b =~= old_batches.map_values(|b: DataChunk| b.rows()).push(output.rows()));
            old_batches.map_values(|b: DataChunk| b.rows()).lemma_flatten_push(output.rows());
            assert(builder_rows(st.group_builders@, st.agg_builders@, 0) =~= Seq::<Seq<Datum>>::empty());
            assert(batch_rows(done + st.batches@) =~= batch_rows(old_batches) + full_rows);
        }
        st.left_capacity = limit;
    }
}


/// Moves every grouper past rows `start..end` of its key column.
pub(crate) fn update_sorted_groupers(
    sorted_groupers: &mut Vec<SortedGrouper>,
    group_columns: &Vec<Vec<Datum>>,
    start: usize,
    end: usize,
)
    requires
        old(sorted_groupers)@.len() == group_columns@.len(),
        start < end,
        forall|j: int| 0 <= j < group_columns@.len() ==> end <= (#[trigger] group_columns@[j])@.len(),
    ensures
        final(sorted_groupers)@.len() == old(sorted_groupers)@.len(),
        forall|j: int|
            0 <= j < group_columns@.len() ==> (#[trigger] final(sorted_groupers)@[j]).last == Some(
                group_columns@[j]@[end - 1],
            ),
{
    let mut j: usize = 0;
    while j < sorted_groupers.len()
        invariant
            sorted_groupers@.len() == group_columns@.len(),
            start < end,
            forall|k: int| 0 <= k < group_columns@.len() ==> end <= (#[trigger] group_columns@[k])@.len(),
            j <= group_columns@.len(),
            forall|k: int|
                0 <= k < j ==> (#[trigger] sorted_groupers@[k]).last == Some(group_columns@[k]@[end - 1]),
        decreases group_columns@.len() - j,
    {
        sorted_groupers[j].update(&group_columns[j], start, end);
        j += 1;
    }
}

/// Aggregate `i` is the first whose fold of `rows` overflows: every one
/// before it holds its fold of `rows`, and every one after it is untouched.
pub open spec fn first_overflow(
    before: Seq<AggState>,
    after: Seq<AggState>,
    rows: Seq<Seq<Datum>>,
    i: int,
) -> bool {
    &&& !agg_fits(before[i].call, before[i].value(), rows)
    &&& forall|k: int|
        0 <= k < i ==> agg_fits(before[k].call, before[k].value(), rows) && (
        #[trigger] after[k]).value() == agg_fold(before[k].call, before[k].value(), rows)
    &&& forall|k: int| i < k < before.len() ==> #[trigger] after[k] == before[k]
}

/// Folds rows `start..end` of `chunk` into every aggregate state; stops at the first overflow.
pub(crate) fn update_agg_states(
    agg_states: &mut Vec<AggState>,
    chunk: &DataChunk,
    start: usize,
    end: usize,
) -> (r: Result<(), SortAggError>)
    requires
        chunk.wf(),
        start <= end <= chunk.visibility@.len(),
        forall|i: int|
            0 <= i < old(agg_states)@.len() ==> match (#[trigger] old(agg_states)@[i]).call.arg {
                Some(a) => a.index < chunk.width(),
                None => true,
            },
    ensures
        final(agg_states)@.len() == old(agg_states)@.len(),
        forall|i: int|
            0 <= i < old(agg_states)@.len() ==> (#[trigger] final(agg_states)@[i]).call == old(
                agg_states,
            )@[i].call,
        match r {
            Ok(()) => forall|i: int|
                0 <= i < old(agg_states)@.len() ==> agg_fits(
                    old(agg_states)@[i].call,
                    old(agg_states)@[i].value(),
                    chunk.rows().subrange(start as int, end as int),
                ) && (#[trigger] final(agg_states)@[i]).value() == agg_fold(
                    old(agg_states)@[i].call,
                    old(agg_states)@[i].value(),
                    chunk.rows().subrange(start as int, end as int),
                ),
            Err(e) => e == SortAggError::NumericOutOfRange && exists|i: int|
                0 <= i < old(agg_states)@.len() && first_overflow(
                    old(agg_states)@,
                    final(agg_states)@,
                    chunk.rows().subrange(start as int, end as int),
                    i,
                ),
        },
{
    let ghost states0 = agg_states@;
    let ghost x = chunk.rows().subrange(start as int, end as int);
    let mut res: Result<(), SortAggError> = Ok(());
    let mut i: usize = 0;
    while i < agg_states.len() && res.is_ok()
        invariant
            chunk.wf(),
            start <= end <= chunk.visibility@.len(),
            x == chunk.rows().subrange(start as int, end as int),
            agg_states@.len() == states0.len(),
            i <= states0.len(),
            forall|k: int|
                0 <= k < states0.len() ==> match (#[trigger] states0[k]).call.arg {
                    Some(a) => a.index < chunk.width(),
                    None => true,
                },
            forall|k: int| 0 <= k < states0.len() ==> (#[trigger] agg_states@[k]).call == states0[k].call,
            forall|k: int| i <= k < states0.len() ==> #[trigger] agg_states@[k] == states0[k],
            match res {
                Ok(()) => forall|k: int|
                    0 <= k < i ==> agg_fits(states0[k].call, states0[k].value(), x) && (
                    #[trigger] agg_states@[k]).value() == agg_fold(
                        states0[k].call,
                        states0[k].value(),
                        x,
                    ),
                Err(e) => e == SortAggError::NumericOutOfRange && 0 < i && first_overflow(
                    states0,
                    agg_states@,
                    x,
                    i - 1,
                ),
            },
        decreases states0.len() - i,
    {
        proof {
            assert(states0[i as int] == agg_states@[i as int]);
        }
        let r = agg_states[i].update_multi(chunk, start, end);
        if r.is_err() {
            proof {
                assert(!agg_fits(states0[i as int].call, states0[i as int].value(), x));
            }
            res = Err(SortAggError::NumericOutOfRange);
        }
        i += 1;
    }
    proof {
        if res.is_err() {
            assert(first_overflow(states0, agg_states@, x, i - 1));
        }
    }
    res
}


/// Consumes rows `start..end` of `chunk`, which share one key: they extend the
/// open run when it has their key, and start a new run otherwise.
pub(crate) fn update_range(
    st: &mut RunState,
    chunk: &DataChunk,
    group_columns: &Vec<Vec<Datum>>,
    start: usize,
    end: usize,
    Ghost(limit): Ghost<nat>,
    Ghost(keys): Ghost<Seq<InputRef>>,
    Ghost(calls): Ghost<Seq<AggCall>>,
    Ghost(p): Ghost<Seq<Seq<Datum>>>,
    Ghost(closed): Ghost<bool>,
    Ghost(done): Ghost<Seq<DataChunk>>,
) -> (r: Result<(), SortAggError>)
    requires
        old(st).inv(keys, calls, limit, p, closed, done),
        chunk.wf(),
        start < end <= chunk.visibility@.len(),
        group_columns@.len() == keys.len(),
        forall|j: int|
            0 <= j < keys.len() ==> keys[j].index < chunk.width() && (#[trigger] group_columns@[j])@
                == chunk.columns@[keys[j].index as int]@,
        forall|i: int|
            0 <= i < calls.len() ==> match (#[trigger] calls[i]).arg {
                Some(a) => a.index < chunk.width(),
                None => true,
            },
        forall|x: int|
            start <= x < end ==> same_key(
                #[trigger] chunk.row(x),
                chunk.row(start as int),
                keys,
            ),
        (closed || p.len() == 0) && p.len() > 0 ==> !same_key(
            p.last(),
            chunk.row(start as int),
            keys,
        ),
        !closed && p.len() > 0 ==> same_key(chunk.row(start as int), p.last(), keys),
    ensures
        match r {
            Ok(()) => final(st).inv(
                keys,
                calls,
                limit,
                p + chunk.rows().subrange(start as int, end as int),
                false,
                done,
            ),
            Err(e) => e == SortAggError::NumericOutOfRange && !sort_agg_fits(
                p + chunk.rows().subrange(start as int, end as int),
                keys,
                calls,
            ),
        },
{
    let ghost x = chunk.rows().subrange(start as int, end as int);
    let ghost g = runs(p, keys);
    let ghost open0 = open_rows(p, keys, closed);
    let ghost states0 = st.agg_states@;
    proof {
        lemma_runs_shape(p, keys);
        assert forall|k: int| 0 <= k < x.len() implies #[trigger] x[k] == chunk.row(start + k) by {}
        if !closed && p.len() > 0 {
            assert forall|k: int| 0 <= k < x.len() implies same_key(
                #[trigger] x[k],
                p.last(),
                keys,
            ) by {
                assert(same_key(chunk.row(start + k), chunk.row(start as int), keys));
            }
            lemma_runs_extend_same(p, x, keys);
        } else {
            assert forall|k: int| 0 <= k < x.len() implies same_key(
                #[trigger] x[k],
                x[0],
                keys,
            ) by {
                assert(same_key(chunk.row(start + k), chunk.row(start as int), keys));
            }
            lemma_runs_extend_new(p, x, keys);
        }
        assert forall|i: int| 0 <= i < states0.len() implies match (#[trigger] states0[i]).call.arg {
            Some(a) => a.index < chunk.width(),
            None => true,
        } by {
            assert(states0[i].call == calls[i]);
        }
    }
    let res = update_agg_states(&mut st.agg_states, chunk, start, end);
    if res.is_err() {
        proof {
            let i = choose|i: int|
                0 <= i < states0.len() && !agg_fits(
                    (#[trigger] states0[i]).call,
                    states0[i].value(),
                    x,
                );
            assert(states0[i].call == calls[i]);
            lemma_agg_fold_append(calls[i], agg_init(calls[i]), open0, x);
            let h = runs(p + x, keys);
            if !closed && p.len() > 0 {
                assert(h[h.len() - 1] == open0 + x);
            } else {
                assert(h[h.len() - 1] == x);
                assert(open0 + x =~= x);
            }
            assert(!group_fits(h[h.len() - 1], calls));
        }
        return Err(SortAggError::NumericOutOfRange);
    }
    update_sorted_groupers(&mut st.sorted_groupers, group_columns, start, end);
    proof {
        let q = p + x;
        let h = runs(q, keys);
        assert(q.last() == chunk.row(end - 1));
        assert forall|j: int| 0 <= j < keys.len() implies (#[trigger] st.sorted_groupers@[j]).last
            == Some(key_of(q.last(), keys)[j]) by {
            assert(group_columns@[j]@ == chunk.columns@[keys[j].index as int]@);
        }
        assert forall|i: int| 0 <= i < calls.len() implies (#[trigger] st.agg_states@[i]).value()
            == agg_value(calls[i], open_rows(q, keys, false)) && agg_fits(
            calls[i],
            agg_init(calls[i]),
            open_rows(q, keys, false),
        ) by {
            assert(states0[i].call == calls[i]);
            lemma_agg_fold_append(calls[i], agg_init(calls[i]), open0, x);
            if !closed && p.len() > 0 {
                assert(h.last() == open0 + x);
            } else {
                assert(h.last() == x);
                assert(open0 + x =~= x);
            }
        }
        assert(emitted_count(q, keys, false) == emitted_count(p, keys, closed));
        let e = emitted_count(p, keys, closed);
        assert forall|t: int| 0 <= t < e implies #[trigger] h[t] == g[t] by {}
        assert(group_out_rows(q, keys, calls).take(e) =~= group_out_rows(p, keys, calls).take(e));
    }
    Ok(())
}


/// Whether row `x` of `chunk` starts a new run, given the rows `p` before it.
pub open spec fn is_boundary(p: Seq<Seq<Datum>>, chunk: DataChunk, keys: Seq<InputRef>, x: int) -> bool {
    if x == 0 {
        p.len() > 0 && !same_key(p.last(), chunk.row(0), keys)
    } else {
        !same_key(chunk.row(x), chunk.row(x - 1), keys)
    }
}

/// Rows with no boundary between them all share the key of the first.
proof fn lemma_same_key_chain(
    p: Seq<Seq<Datum>>,
    chunk: DataChunk,
    keys: Seq<InputRef>,
    start: int,
    end: int,
)
    requires
        0 <= start < end,
        forall|x: int| start < x < end ==> !is_boundary(p, chunk, keys, x),
    ensures
        forall|x: int|
            start <= x < end ==> same_key(#[trigger] chunk.row(x), chunk.row(start), keys),
    decreases end - start,
{
    if end - 1 > start {
        lemma_same_key_chain(p, chunk, keys, start, end - 1);
        assert(!is_boundary(p, chunk, keys, end - 1));
    }
}

/// Consumes one compacted chunk: closes every run that ends inside it and
/// leaves the run that reaches its end open.
pub(crate) fn process_chunk(
    st: &mut RunState,
    chunk: &DataChunk,
    group_key: &Vec<InputRef>,
    limit: usize,
    Ghost(calls): Ghost<Seq<AggCall>>,
    Ghost(p): Ghost<Seq<Seq<Datum>>>,
    Ghost(done): Ghost<Seq<DataChunk>>,
) -> (r: Result<(), SortAggError>)
    requires
        old(st).inv(group_key@, calls, limit as nat, p, false, done),
        chunk.wf(),
        forall|j: int| 0 <= j < group_key@.len() ==> (#[trigger] group_key@[j]).index < chunk.width(),
        forall|i: int|
            0 <= i < calls.len() ==> match (#[trigger] calls[i]).arg {
                Some(a) => a.index < chunk.width(),
                None => true,
            },
    ensures
        match r {
            Ok(()) => final(st).inv(group_key@, calls, limit as nat, p + chunk.rows(), false, done),
            Err(e) => e == SortAggError::NumericOutOfRange && !sort_agg_fits(
                p + chunk.rows(),
                group_key@,
                calls,
            ),
        },
{
    let ghost keys = group_key@;
    let ghost rows = chunk.rows();
    let n = chunk.visibility.len();
    let mut group_columns: Vec<Vec<Datum>> = Vec::new();
    let mut j: usize = 0;
    while j < group_key.len()
        invariant
            chunk.wf(),
            keys == group_key@,
            j <= keys.len(),
            group_columns@.len() == j,
            forall|q: int| 0 <= q < keys.len() ==> (#[trigger] keys[q]).index < chunk.width(),
            forall|q: int|
                0 <= q < j ==> (#[trigger] group_columns@[q])@ == chunk.columns@[keys[q].index as int]@,
        decreases keys.len() - j,
    {
        let col = group_key[j].eval(chunk);
        group_columns.push(col);
        j += 1;
    }
    let mut groups: Vec<EqGroups> = Vec::new();
    let mut j: usize = 0;
    while j < st.sorted_groupers.len()
        invariant
            st.sorted_groupers@.len() == keys.len(),
            group_columns@.len() == keys.len(),
            j <= keys.len(),
            groups@.len() == j,
            forall|q: int|
                0 <= q < keys.len() ==> keys[q].index < chunk.width() && (#[trigger] group_columns@[q])@
                    == chunk.columns@[keys[q].index as int]@,
            forall|q: int|
                0 <= q < j ==> (#[trigger] groups@[q]).wf() && forall|x: usize|
                    groups@[q].indices@.contains(x) <==> (x < group_columns@[q]@.len()
                        && changes_at(
                        st.sorted_groupers@[q].last,
                        group_columns@[q]@,
                        x as int,
                    )),
        decreases keys.len() - j,
    {
        let g = st.sorted_groupers[j].detect_groups(&group_columns[j]);
        groups.push(g);
        j += 1;
    }
    let eq = EqGroups::intersect(&groups);
    let ghost idx = eq.indices@;
    proof {
        assert forall|x: usize| idx.contains(x) <==> (x < n && is_boundary(p, *chunk, keys, x as int)) by {
            if idx.contains(x) {
                let q = choose|q: int|
                    0 <= q < groups@.len() && #[trigger] groups@[q].indices@.contains(x);
                assert(key_of(chunk.row(x as int), keys)[q] == group_columns@[q]@[x as int]);
                if x > 0 {
                    assert(key_of(chunk.row(x - 1), keys)[q] == group_columns@[q]@[x - 1]);
                } else {
                    assert(key_of(p.last(), keys)[q] != key_of(chunk.row(0), keys)[q]);
                }
            }
            if x < n && is_boundary(p, *chunk, keys, x as int) {
                let other = if x == 0 { p.last() } else { chunk.row(x - 1) };
                if forall|q: int| 0 <= q < keys.len() ==> key_of(chunk.row(x as int), keys)[q] == #[trigger] key_of(other, keys)[q] {
                    assert(key_of(chunk.row(x as int), keys) =~= key_of(other, keys));
                }
                let q = choose|q: int| 0 <= q < keys.len() && key_of(chunk.row(x as int), keys)[q] != #[trigger] key_of(other, keys)[q];
                assert(groups@[q].indices@.contains(x));
            }
        }
    }
    let mut start: usize = 0;
    let mut k: usize = 0;
    let mut res: Result<(), SortAggError> = Ok(());
    while k < eq.indices.len() && res.is_ok()
        invariant
            chunk.wf(),
            keys == group_key@,
            rows == chunk.rows(),
            n == chunk.visibility@.len(),
            idx == eq.indices@,
            eq.wf(),
            group_columns@.len() == keys.len(),
            forall|q: int| 0 <= q < keys.len() ==> (#[trigger] keys[q]).index < chunk.width(),
            forall|q: int|
                0 <= q < keys.len() ==> (#[trigger] group_columns@[q])@ == chunk.columns@[keys[q].index as int]@,
            forall|i: int|
                0 <= i < calls.len() ==> match (#[trigger] calls[i]).arg {
                    Some(a) => a.index < chunk.width(),
                    None => true,
                },
            forall|x: usize| idx.contains(x) <==> (x < n && is_boundary(p, *chunk, keys, x as int)),
            k <= idx.len(),
            start <= n,
            k == 0 ==> start == 0,
            res is Ok && k > 0 ==> start == idx[k - 1],
            match res {
                Ok(()) => st.inv(keys, calls, limit as nat, p + rows.take(start as int), k > 0, done),
                Err(e) => e == SortAggError::NumericOutOfRange && !sort_agg_fits(
                    p + rows,
                    keys,
                    calls,
                ),
            },
        decreases idx.len() - k,
    {
        let b = eq.indices[k];
        proof {
            assert(idx.contains(b));
            if k == 0 && p.len() > 0 && is_boundary(p, *chunk, keys, 0) {
                assert(idx.contains(0));
                let q = choose|q: int| 0 <= q < idx.len() && idx[q] == 0;
                assert(idx[q] >= idx[0]);
            }
            assert forall|x: int| start < x < b implies !is_boundary(p, *chunk, keys, x) by {
                if is_boundary(p, *chunk, keys, x) {
                    assert(idx.contains(x as usize));
                    let q = choose|q: int| 0 <= q < idx.len() && idx[q] == x as usize;
                    if q < k {
                        assert(idx[q] <= idx[k - 1]);
                    } else {
                        assert(idx[q] >= idx[k as int]);
                    }
                }
            }
            if k > 0 {
                assert(idx.contains(start));
                assert(start < b);
            }
        }
        let mut ok = true;
        if start < b {
            proof {
                lemma_same_key_chain(p, *chunk, keys, start as int, b as int);
                let pk = p + rows.take(start as int);
                if start > 0 {
                    assert(pk.last() == chunk.row(start - 1));
                } else {
                    assert(pk =~= p);
                }
            }
            let r = update_range(
                st,
                chunk,
                &group_columns,
                start,
                b,
                Ghost(limit as nat),
                Ghost(keys),
                Ghost(calls),
                Ghost(p + rows.take(start as int)),
                Ghost(k > 0),
                Ghost(done),
            );
            proof {
                assert(p + rows.take(start as int) + rows.subrange(start as int, b as int) =~= p
                    + rows.take(b as int));
            }
            if r.is_err() {
                proof {
                    assert(p + rows.take(b as int) + rows.skip(b as int) =~= p + rows);
                    if sort_agg_fits(p + rows, keys, calls) {
                        lemma_fits_prefix(p + rows.take(b as int), rows.skip(b as int), keys, calls);
                    }
                }
                res = r;
                ok = false;
            }
        } else {
            proof {
                assert(p + rows.take(start as int) =~= p);
            }
        }
        if ok {
            close_group(
                st,
                limit,
                Ghost(keys),
                Ghost(calls),
                Ghost(p + rows.take(b as int)),
                Ghost(done),
            );
            start = b;
        }
        k += 1;
    }
    if res.is_err() {
        return res;
    }
    if start < n {
        proof {
            assert forall|x: int| start < x < n implies !is_boundary(p, *chunk, keys, x) by {
                if is_boundary(p, *chunk, keys, x) {
                    assert(idx.contains(x as usize));
                    let q = choose|q: int| 0 <= q < idx.len() && idx[q] == x as usize;
                    assert(idx[q] <= idx[k - 1]);
                }
            }
            if k == 0 && idx.len() > 0 {
                assert(false);
            }
            if k == 0 && p.len() > 0 {
                assert(!idx.contains(0));
                assert(!is_boundary(p, *chunk, keys, 0));
            }
            lemma_same_key_chain(p, *chunk, keys, start as int, n as int);
            if k > 0 {
                assert(idx.contains(start));
            }
            let pk = p + rows.take(start as int);
            if start > 0 {
                assert(pk.last() == chunk.row(start - 1));
            } else {
                assert(pk =~= p);
            }
        }
        let r = update_range(
            st,
            chunk,
            &group_columns,
            start,
            n,
            Ghost(limit as nat),
            Ghost(keys),
            Ghost(calls),
            Ghost(p + rows.take(start as int)),
            Ghost(k > 0),
            Ghost(done),
        );
        proof {
            assert(p + rows.take(start as int) + rows.subrange(start as int, n as int) =~= p + rows);
        }
        return r;
    }
    proof {
        if k > 0 {
            assert(idx.contains(start));
        }
        assert(rows.take(start as int) =~= rows);
    }
    Ok(())
}


/// Emits the last group at the end of the input and hands out the last batch,
/// unless a grouped aggregation saw no row at all.
pub(crate) fn finish(
    st: RunState,
    limit: usize,
    no_input_data: bool,
    Ghost(keys): Ghost<Seq<InputRef>>,
    Ghost(calls): Ghost<Seq<AggCall>>,
    Ghost(p): Ghost<Seq<Seq<Datum>>>,
    Ghost(done): Ghost<Seq<DataChunk>>,
) -> (r: Vec<DataChunk>)
    requires
        st.inv(keys, calls, limit as nat, p, false, done),
        no_input_data == (p.len() == 0),
    ensures
        batches_wf(r@, keys.len() + calls.len()),
        sort_agg_fits(p, keys, calls),
        (done + r@).map_values(|b: DataChunk| b.rows()) == split_batches(
            sort_agg_rows(p, keys, calls),
            limit as nat,
        ),
{
    let mut st = st;
    let ghost g = runs(p, keys);
    let ghost m0 = (limit - st.left_capacity) as nat;
    let ghost rows0 = builder_rows(st.group_builders@, st.agg_builders@, m0);
    let ghost all = done + st.batches@;
    let ghost full = all.map_values(|b: DataChunk| b.rows());
    proof {
        lemma_runs_shape(p, keys);
        assert forall|k: int| 0 <= k < full.len() implies (#[trigger] full[k]).len() == limit by {
            assert(all[k].visibility@.len() == limit);
        }
        lemma_flatten_uniform(full, limit as nat);
        assert(batch_rows(all) == full.flatten());
        assert forall|k: int| 0 <= k < st.batches@.len() implies #[trigger] st.batches@[k] == all[done.len() + k] by {}
        if p.len() == 0 {
            assert(emitted_count(p, keys, false) == 0);
            assert(group_out_rows(p, keys, calls).take(0).len() == 0);
            assert((full.flatten() + rows0).len() == 0);
        }
        assert forall|t: int| 0 <= t < g.len() implies group_fits(#[trigger] g[t], calls) by {
            if t == g.len() - 1 {
                assert forall|i: int| 0 <= i < calls.len() implies agg_fits(
                    calls[i],
                    agg_init(calls[i]),
                    g[t],
                ) by {
                    assert(st.agg_states@[i].call == calls[i]);
                }
            }
        }
    }
    if no_input_data && st.sorted_groupers.len() > 0 {
        // A grouped aggregation over no rows has no group, hence no output.
        proof {
            assert(full.flatten().len() == 0);
            assert(all.len() == 0);
            assert((done + st.batches@).map_values(|b: DataChunk| b.rows()) =~= Seq::<Seq<Seq<Datum>>>::empty());
        }
        return st.batches;
    }
    let ghost key = if p.len() == 0 {
        Seq::<Datum>::empty()
    } else {
        key_of(g.last()[0], keys)
    };
    let ghost group = if p.len() == 0 {
        Seq::<Seq<Datum>>::empty()
    } else {
        g.last()
    };
    let ghost new_row = out_row(key, group, calls);
    let ghost groupers = st.sorted_groupers@;
    let ghost states = st.agg_states@;
    proof {
        if p.len() > 0 {
            assert(same_key(g.last()[g.last().len() - 1], g.last()[0], keys));
        }
    }
    output_sorted_groupers(&st.sorted_groupers, &mut st.group_builders);
    output_agg_states(&mut st.agg_states, &mut st.agg_builders);
    let ghost m1 = m0 + 1;
    let ghost rows1 = builder_rows(st.group_builders@, st.agg_builders@, m1);
    proof {
        let nk = keys.len() as int;
        assert forall|c: int| 0 <= c < new_row.len() implies rows1[m0 as int][c] == #[trigger] new_row[c] by {
            if c < nk {
                assert(groupers[c].last == Some(key_of(p.last(), keys)[c]));
            } else {
                assert(states[c - nk].value() == agg_value(calls[c - nk], group));
            }
        }
        assert(rows1[m0 as int] =~= new_row);
        assert forall|r: int| 0 <= r < m0 implies #[trigger] rows1[r] == rows0[r] by {
            assert(rows1[r] =~= rows0[r]);
        }
        assert(rows1 =~= rows0.push(new_row));
        if p.len() > 0 {
            let all = group_out_rows(p, keys, calls);
            assert(all.take(g.len() - 1).push(new_row) =~= all);
        } else {
            assert(rows0 =~= Seq::<Seq<Datum>>::empty());
        }
        assert(full.flatten() + rows1 == sort_agg_rows(p, keys, calls));
    }
    let cardinality = limit - st.left_capacity + 1;
    let columns = concat_builders(st.group_builders, st.agg_builders);
    let output = DataChunk::new(columns, cardinality);
    let mut batches = st.batches;
    batches.push(output);
    proof {
        assert(done + batches@ =~= all.push(output));
        assert forall|r: int| 0 <= r < cardinality implies #[trigger] output.rows()[r] == rows1[r] by {
            assert(output.rows()[r] =~= rows1[r]);
        }
        assert(output.rows() =~= rows1);
        lemma_split_batches_of(full, rows1, limit as nat);
        assert((done + batches@).map_values(|b: DataChunk| b.rows()) =~= full.push(rows1));
        assert forall|k: int| 0 <= k < st.batches@.len() implies #[trigger] batches@[k] == all[done.len() + k] by {}
    }
    batches
}

} // verus!
