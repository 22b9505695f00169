//! The sort aggregation operator: building it from aggregate calls and a
//! group key, running it over a whole input, or feeding it chunk by chunk.
use vstd::prelude::*;

use crate::agg::{agg_init, build_agg, call_error, AggCall, AggState};
use crate::chunk::{lemma_all_visible, DataChunk, Datum};
use crate::driver::{
    builder_rows, create_builders, emitted_count, finish, process_chunk, RunState,
};
use crate::error::SortAggError;
use crate::grouper::SortedGrouper;
use crate::output::{
    all_rows, batch_rows, batches_wf, group_out_rows, lemma_all_rows_prefix, lemma_fits_prefix,
    out_row, sort_agg_fits, sort_agg_rows, split_batches,
};
use crate::runs::{key_of, lemma_runs_prefix, lemma_runs_shape, runs};
use crate::types::{DataType, Field, InputRef, Schema};

verus! {

/// Why a group-key expression cannot be evaluated over an input with the
/// given column types, if it cannot.
pub open spec fn key_error(key: InputRef, input: Seq<DataType>) -> Option<SortAggError> {
    if key.index >= input.len() {
        Some(SortAggError::ColumnOutOfRange { index: key.index })
    } else if !input[key.index as int].spec_is_integer() {
        Some(SortAggError::UnsupportedType { index: key.index })
    } else {
        None
    }
}

/// The error of the first item that has one.
pub open spec fn first_error<T>(items: Seq<T>, err: spec_fn(T) -> Option<SortAggError>) -> Option<
    SortAggError,
>
    decreases items.len(),
{
    if items.len() == 0 {
        None
    } else {
        match err(items[0]) {
            Some(e) => Some(e),
            None => first_error(items.drop_first(), err),
        }
    }
}

/// Why an aggregation cannot be built: the first invalid aggregate call, else
/// the first invalid key, else a zero batch size.
pub open spec fn build_error(
    calls: Seq<AggCall>,
    keys: Seq<InputRef>,
    input: Seq<DataType>,
    output_size_limit: usize,
) -> Option<SortAggError> {
    match first_error(calls, |c: AggCall| call_error(c, input)) {
        Some(e) => Some(e),
        None => match first_error(keys, |k: InputRef| key_error(k, input)) {
            Some(e) => Some(e),
            None => if output_size_limit == 0 {
                Some(SortAggError::ZeroOutputSizeLimit)
            } else {
                None
            },
        },
    }
}

/// The output types: the keys' types, then the aggregates' result types.
pub open spec fn output_types(keys: Seq<InputRef>, calls: Seq<AggCall>) -> Seq<DataType> {
    keys.map_values(|k: InputRef| k.return_type) + calls.map_values(
        |c: AggCall| c.spec_return_type(),
    )
}

/// Sort aggregation over an input that is ordered by the group key: every
/// maximal run of rows with one key value gives one output row, made of the
/// key's values followed by the aggregates over the run. Without a group key
/// the whole input is one group.
pub struct SortAggExecutor {
    pub agg_states: Vec<AggState>,
    pub group_key: Vec<InputRef>,
    pub sorted_groupers: Vec<SortedGrouper>,
    /// The schema of the input chunks.
    pub input_schema: Schema,
    pub schema: Schema,
    pub identity: String,
    /// The number of rows of every output batch but the last.
    pub output_size_limit: usize,
}

impl SortAggExecutor {
    pub open spec fn calls(&self) -> Seq<AggCall> {
        self.agg_states@.map_values(|s: AggState| s.call)
    }

    pub open spec fn keys(&self) -> Seq<InputRef> {
        self.group_key@
    }

    pub open spec fn wf(&self) -> bool {
        let input = self.input_schema.types();
        &&& self.output_size_limit >= 1
        &&& self.sorted_groupers@.len() == self.group_key@.len()
        &&& forall|j: int|
            0 <= j < self.sorted_groupers@.len() ==> (#[trigger] self.sorted_groupers@[j]).last is None
        &&& forall|i: int|
            0 <= i < self.agg_states@.len() ==> (#[trigger] self.agg_states@[i]).value() == agg_init(
                self.agg_states@[i].call,
            ) && call_error(self.agg_states@[i].call, input) is None
        &&& forall|j: int|
            0 <= j < self.group_key@.len() ==> key_error(#[trigger] self.group_key@[j], input) is None
        &&& self.schema.types() == output_types(self.keys(), self.calls())
        &&& self.schema.all_unnamed()
    }

    /// Checks the aggregate calls and the group key against the input schema
    /// and sets up an aggregation that emits batches of `output_size_limit` rows.
    pub fn new(
        agg_calls: Vec<AggCall>,
        group_key: Vec<InputRef>,
        input_schema: Schema,
        identity: String,
        output_size_limit: usize,
    ) -> (r: Result<SortAggExecutor, SortAggError>)
        ensures
            match r {
                Ok(ex) => {
                    &&& build_error(
                        agg_calls@,
                        group_key@,
                        input_schema.types(),
                        output_size_limit,
                    ) is None
                    &&& ex.wf()
                    &&& ex.calls() == agg_calls@
                    &&& ex.keys() == group_key@
                    &&& ex.input_schema.types() == input_schema.types()
                    &&& ex.identity@ == identity@
                    &&& ex.output_size_limit == output_size_limit
                    &&& ex.schema.types() == output_types(group_key@, agg_calls@)
                    &&& ex.schema.all_unnamed()
                },
                Err(e) => build_error(agg_calls@, group_key@, input_schema.types(), output_size_limit)
                    == Some(e),
            },
    {
        let input = input_schema.data_types();
        proof {
            assert(agg_calls@.skip(0) =~= agg_calls@);
            assert(group_key@.skip(0) =~= group_key@);
        }
        let mut agg_states: Vec<AggState> = Vec::new();
        let mut i: usize = 0;
        while i < agg_calls.len()
            invariant
                i <= agg_calls@.len(),
                input@ == input_schema.types(),
                first_error(agg_calls@, |c: AggCall| call_error(c, input_schema.types()))
                    == first_error(
                    agg_calls@.skip(i as int),
                    |c: AggCall| call_error(c, input_schema.types()),
                ),
                agg_states@.len() == i,
                forall|q: int|
                    0 <= q < i ==> (#[trigger] agg_states@[q]).call == agg_calls@[q]
                        && agg_states@[q].value() == agg_init(agg_calls@[q]) && call_error(
                        agg_calls@[q],
                        input@,
                    ) is None,
            decreases agg_calls@.len() - i,
        {
            proof {
                assert(agg_calls@.skip(i as int)[0] == agg_calls@[i as int]);
                assert(agg_calls@.skip(i as int).drop_first() =~= agg_calls@.skip(i + 1));
            }
            match build_agg(agg_calls[i], &input) {
                Ok(state) => {
                    agg_states.push(state);
                },
                Err(e) => {
                    return Err(e);
                },
            }
            i += 1;
        }
        proof {
            assert(agg_calls@.skip(i as int) =~= Seq::<AggCall>::empty());
        }
        let mut sorted_groupers: Vec<SortedGrouper> = Vec::new();
        let mut j: usize = 0;
        while j < group_key.len()
            invariant
                j <= group_key@.len(),
                input@ == input_schema.types(),
                first_error(agg_calls@, |c: AggCall| call_error(c, input_schema.types())) is None,
                first_error(group_key@, |k: InputRef| key_error(k, input_schema.types()))
                    == first_error(
                    group_key@.skip(j as int),
                    |k: InputRef| key_error(k, input_schema.types()),
                ),
                sorted_groupers@.len() == j,
                forall|q: int| 0 <= q < j ==> (#[trigger] sorted_groupers@[q]).last is None,
                forall|q: int| 0 <= q < j ==> key_error(#[trigger] group_key@[q], input@) is None,
            decreases group_key@.len() - j,
        {
            proof {
                assert(group_key@.skip(j as int)[0] == group_key@[j as int]);
                assert(group_key@.skip(j as int).drop_first() =~= group_key@.skip(j + 1));
            }
            let k = group_key[j];
            if k.index >= input.len() {
                return Err(SortAggError::ColumnOutOfRange { index: k.index });
            }
            if !input[k.index].is_integer() {
                return Err(SortAggError::UnsupportedType { index: k.index });
            }
            sorted_groupers.push(SortedGrouper::new());
            j += 1;
        }
        proof {
            assert(group_key@.skip(j as int) =~= Seq::<InputRef>::empty());
        }
        if output_size_limit == 0 {
            return Err(SortAggError::ZeroOutputSizeLimit);
        }
        let schema = Self::output_schema(&group_key, &agg_states);
        let ex = SortAggExecutor {
            agg_states,
            group_key,
            sorted_groupers,
            input_schema,
            schema,
            identity,
            output_size_limit,
        };
        proof {
            assert(ex.calls() =~= agg_calls@);
        }
        Ok(ex)
    }

    /// One unnamed field per key, then one per aggregate.
    fn output_schema(group_key: &Vec<InputRef>, agg_states: &Vec<AggState>) -> (r: Schema)
        ensures
            r.types() == output_types(group_key@, agg_states@.map_values(|s: AggState| s.call)),
            r.all_unnamed(),
    {
        let ghost want = output_types(group_key@, agg_states@.map_values(|s: AggState| s.call));
        let mut fields: Vec<Field> = Vec::new();
        let mut j: usize = 0;
        while j < group_key.len()
            invariant
                j <= group_key@.len(),
                want == output_types(group_key@, agg_states@.map_values(|s: AggState| s.call)),
                fields@.len() == j,
                forall|q: int| 0 <= q < j ==> (#[trigger] fields@[q]).data_type == want[q],
                forall|q: int| 0 <= q < j ==> (#[trigger] fields@[q]).name@.len() == 0,
            decreases group_key@.len() - j,
        {
            fields.push(Field::unnamed(group_key[j].return_type));
            j += 1;
        }
        let mut i: usize = 0;
        while i < agg_states.len()
            invariant
                i <= agg_states@.len(),
                want == output_types(group_key@, agg_states@.map_values(|s: AggState| s.call)),
                fields@.len() == group_key@.len() + i,
                forall|q: int| 0 <= q < group_key@.len() + i ==> (#[trigger] fields@[q]).data_type
                    == want[q],
                forall|q: int| 0 <= q < group_key@.len() + i ==> (#[trigger] fields@[q]).name@.len()
                    == 0,
            decreases agg_states@.len() - i,
        {
            fields.push(Field::unnamed(agg_states[i].return_type()));
            i += 1;
        }
        let r = Schema { fields };
        proof {
            assert(r.types() =~= want);
        }
        r
    }

    /// The output schema: the key columns' types, then the aggregates' result types.
    pub fn schema(&self) -> (r: &Schema)
        ensures
            r == &self.schema,
    {
        &self.schema
    }

    /// The name of this operator, for diagnostics.
    pub fn identity(&self) -> (r: &str)
        ensures
            r@ == self.identity@,
    {
        self.identity.as_str()
    }
}


impl SortAggExecutor {
    /// Aggregates `input`, a sequence of chunks ordered by the group key, and
    /// returns the output rows cut into batches of `output_size_limit` rows
    /// (the last batch may be shorter). Fails when an aggregate overflows.
    pub fn execute(self, input: Vec<DataChunk>) -> (r: Result<Vec<DataChunk>, SortAggError>)
        requires
            self.wf(),
            forall|k: int|
                0 <= k < input@.len() ==> (#[trigger] input@[k]).wf() && input@[k].width()
                    == self.input_schema.fields@.len(),
        ensures
            match r {
                Ok(batches) => {
                    &&& sort_agg_fits(all_rows(input@), self.keys(), self.calls())
                    &&& batches_wf(batches@, self.keys().len() + self.calls().len())
                    &&& batches@.map_values(|b: DataChunk| b.rows()) == split_batches(
                        sort_agg_rows(all_rows(input@), self.keys(), self.calls()),
                        self.output_size_limit as nat,
                    )
                },
                Err(e) => e == SortAggError::NumericOutOfRange && !sort_agg_fits(
                    all_rows(input@),
                    self.keys(),
                    self.calls(),
                ),
            },
    {
        let ghost keys = self.keys();
        let ghost calls = self.calls();
        let ghost width = self.input_schema.fields@.len();
        let ghost input_types = self.input_schema.types();
        let limit = self.output_size_limit;
        let group_key = self.group_key;
        let (group_builders, agg_builders) = create_builders(
            self.sorted_groupers.len(),
            self.agg_states.len(),
        );
        let mut st = RunState {
            sorted_groupers: self.sorted_groupers,
            agg_states: self.agg_states,
            group_builders,
            agg_builders,
            batches: Vec::new(),
            left_capacity: limit,
        };
        proof {
            let e = Seq::<Seq<Datum>>::empty();
            assert(all_rows(input@.take(0)) =~= e);
            assert(batch_rows(Seq::<DataChunk>::empty() + st.batches@) =~= e);
            assert(builder_rows(st.group_builders@, st.agg_builders@, 0) =~= e);
            assert(group_out_rows(e, keys, calls).take(0) =~= e);
            assert forall|i: int| 0 <= i < calls.len() implies (#[trigger] st.agg_states@[i]).call
                == calls[i] by {}
            assert forall|q: int| 0 <= q < keys.len() implies (#[trigger] keys[q]).index < width by {
                assert(key_error(keys[q], input_types) is None);
            }
            assert forall|i: int| 0 <= i < calls.len() implies match (#[trigger] calls[i]).arg {
                Some(a) => a.index < width,
                None => true,
            } by {
                assert(call_error(st.agg_states@[i].call, input_types) is None);
            }
        }
        let mut no_input_data = true;
        let mut ci: usize = 0;
        while ci < input.len()
            invariant
                ci <= input@.len(),
                keys == group_key@,
                keys == self.keys(),
                calls == self.calls(),
                limit == self.output_size_limit,
                forall|q: int| 0 <= q < keys.len() ==> (#[trigger] keys[q]).index < width,
                forall|i: int|
                    0 <= i < calls.len() ==> match (#[trigger] calls[i]).arg {
                        Some(a) => a.index < width,
                        None => true,
                    },
                forall|k: int|
                    0 <= k < input@.len() ==> (#[trigger] input@[k]).wf() && input@[k].width() == width,
                st.inv(keys, calls, limit as nat, all_rows(input@.take(ci as int)), false, Seq::empty()),
                no_input_data == (all_rows(input@.take(ci as int)).len() == 0),
            decreases input@.len() - ci,
        {
            let ghost p = all_rows(input@.take(ci as int));
            let chunk = input[ci].compact();
            proof {
                assert(input@.take(ci + 1).drop_last() =~= input@.take(ci as int));
                assert(input@.take(ci + 1).last() == input@[ci as int]);
                assert(all_rows(input@.take(ci + 1)) == p + chunk.rows());
            }
            if no_input_data && chunk.cardinality() > 0 {
                no_input_data = false;
            }
            proof {
                lemma_all_visible(chunk.visibility@);
            }
            let r = process_chunk(
                &mut st,
                &chunk,
                &group_key,
                limit,
                Ghost(calls),
                Ghost(p),
                Ghost(Seq::empty()),
            );
            if let Err(e) = r {
                proof {
                    let done = all_rows(input@.take(ci + 1));
                    lemma_all_rows_prefix(input@, ci + 1);
                    if sort_agg_fits(all_rows(input@), keys, calls) {
                        lemma_fits_prefix(
                            done,
                            all_rows(input@).subrange(done.len() as int, all_rows(input@).len() as int),
                            keys,
                            calls,
                        );
                    }
                    assert(done == p + chunk.rows());
                    assert(!sort_agg_fits(done, keys, calls));
                    assert(!sort_agg_fits(all_rows(input@), keys, calls));
                    assert(e == SortAggError::NumericOutOfRange);
                }
                return Err(e);
            }
            ci += 1;
        }
        proof {
            assert(input@.take(ci as int) =~= input@);
        }
        let batches = finish(
            st,
            limit,
            no_input_data,
            Ghost(keys),
            Ghost(calls),
            Ghost(all_rows(input@)),
            Ghost(Seq::empty()),
        );
        proof {
            assert(Seq::<DataChunk>::empty() + batches@ =~= batches@);
        }
        Ok(batches)
    }
}


/// An aggregation in progress: chunks are pushed one at a time, and each push
/// hands back the batches that it completed. Rows handed out are final: they
/// begin the output whatever rows come later.
pub struct SortAggStream {
    state: RunState,
    group_key: Vec<InputRef>,
    output_size_limit: usize,
    input_width: usize,
    no_input_data: bool,
    calls: Ghost<Seq<AggCall>>,
    rows: Ghost<Seq<Seq<Datum>>>,
    yielded: Ghost<Seq<DataChunk>>,
}

impl SortAggStream {
    /// The aggregate calls, in output order.
    pub closed spec fn calls(&self) -> Seq<AggCall> {
        self.calls@
    }

    /// The visible rows pushed so far.
    pub closed spec fn rows(&self) -> Seq<Seq<Datum>> {
        self.rows@
    }

    /// The batches handed out so far.
    pub closed spec fn yielded(&self) -> Seq<DataChunk> {
        self.yielded@
    }

    pub closed spec fn keys(&self) -> Seq<InputRef> {
        self.group_key@
    }

    pub closed spec fn limit(&self) -> nat {
        self.output_size_limit as nat
    }

    /// The number of columns every pushed chunk must have.
    pub closed spec fn input_width(&self) -> nat {
        self.input_width as nat
    }

    pub closed spec fn wf(&self) -> bool {
        let keys = self.group_key@;
        let calls = self.calls();
        &&& self.state.inv(
            keys,
            calls,
            self.output_size_limit as nat,
            self.rows(),
            false,
            self.yielded(),
        )
        &&& self.state.batches@.len() == 0
        &&& self.no_input_data == (self.rows().len() == 0)
        &&& forall|q: int| 0 <= q < keys.len() ==> (#[trigger] keys[q]).index < self.input_width
        &&& forall|i: int|
            0 <= i < calls.len() ==> match (#[trigger] calls[i]).arg {
                Some(a) => a.index < self.input_width,
                None => true,
            }
    }

    /// Consumes `chunk` and returns the batches of `limit` rows that it completed.
    pub fn push_chunk(&mut self, chunk: &DataChunk) -> (r: Result<Vec<DataChunk>, SortAggError>)
        requires
            old(self).wf(),
            chunk.wf(),
            chunk.width() == old(self).input_width(),
        ensures
            match r {
                Ok(batches) => {
                    &&& final(self).wf()
                    &&& final(self).keys() == old(self).keys()
                    &&& final(self).calls() == old(self).calls()
                    &&& final(self).limit() == old(self).limit()
                    &&& final(self).input_width() == old(self).input_width()
                    &&& final(self).rows() == old(self).rows() + chunk.visible_rows()
                    &&& final(self).yielded() == old(self).yielded() + batches@
                    &&& batches_wf(batches@, old(self).keys().len() + old(self).calls().len())
                    &&& forall|k: int|
                        0 <= k < batches@.len() ==> (#[trigger] batches@[k]).visibility@.len()
                            == old(self).limit()
                },
                Err(e) => e == SortAggError::NumericOutOfRange && !sort_agg_fits(
                    old(self).rows() + chunk.visible_rows(),
                    old(self).keys(),
                    old(self).calls(),
                ),
            },
    {
        let ghost p = self.rows();
        let ghost done = self.yielded();
        let ghost calls = self.calls();
        let compacted = chunk.compact();
        if self.no_input_data && compacted.cardinality() > 0 {
            self.no_input_data = false;
        }
        proof {
            lemma_all_visible(compacted.visibility@);
        }
        let r = process_chunk(
            &mut self.state,
            &compacted,
            &self.group_key,
            self.output_size_limit,
            Ghost(calls),
            Ghost(p),
            Ghost(done),
        );
        match r {
            Ok(()) => {
                let mut batches: Vec<DataChunk> = Vec::new();
                std::mem::swap(&mut batches, &mut self.state.batches);
                self.rows = Ghost(p + compacted.rows());
                self.yielded = Ghost(done + batches@);
                proof {
                    assert(self.yielded() + self.state.batches@ =~= done + batches@);
                    assert forall|k: int| 0 <= k < batches@.len() implies #[trigger] batches@[k]
                        == (done + batches@)[done.len() + k] by {}
                }
                Ok(batches)
            },
            Err(e) => Err(e),
        }
    }

    /// Ends the input: emits the open group (or, without a group key, the one
    /// group even if it is empty) and returns the last batch, if there is one.
    /// All batches handed out, these included, are the output cut into batches.
    pub fn finish(self) -> (r: Vec<DataChunk>)
        requires
            self.wf(),
        ensures
            sort_agg_fits(self.rows(), self.keys(), self.calls()),
            batches_wf(r@, self.keys().len() + self.calls().len()),
            (self.yielded() + r@).map_values(|b: DataChunk| b.rows()) == split_batches(
                sort_agg_rows(self.rows(), self.keys(), self.calls()),
                self.limit(),
            ),
    {
        finish(
            self.state,
            self.output_size_limit,
            self.no_input_data,
            Ghost(self.group_key@),
            Ghost(self.calls()),
            Ghost(self.rows()),
            Ghost(self.yielded()),
        )
    }

    /// The rows handed out so far begin the output, whatever rows come next:
    /// a later failure does not make them wrong.
    pub proof fn lemma_yielded_rows_are_final(&self, more: Seq<Seq<Datum>>)
        requires
            self.wf(),
        ensures
            batch_rows(self.yielded()).len() <= sort_agg_rows(
                self.rows() + more,
                self.keys(),
                self.calls(),
            ).len(),
            sort_agg_rows(self.rows() + more, self.keys(), self.calls()).take(
                batch_rows(self.yielded()).len() as int,
            ) == batch_rows(self.yielded()),
    {
        let keys = self.group_key@;
        let calls = self.calls();
        let p = self.rows();
        let y = batch_rows(self.yielded());
        let m = (self.output_size_limit - self.state.left_capacity) as nat;
        let pending = builder_rows(self.state.group_builders@, self.state.agg_builders@, m);
        assert(self.yielded() + self.state.batches@ =~= self.yielded());
        let e = emitted_count(p, keys, false);
        let out = group_out_rows(p, keys, calls);
        assert(y + pending == out.take(e));
        lemma_runs_shape(p, keys);
        assert(out.take(e).len() == e);
        assert(y.len() <= e);
        if p.len() == 0 {
            assert(e == 0);
            assert(y.len() == 0);
            assert(sort_agg_rows(p + more, keys, calls).take(0) =~= y);
        } else {
            lemma_runs_prefix(p, more, keys);
            lemma_runs_shape(p, keys);
            let g = runs(p, keys);
            let h = runs(p + more, keys);
            let out2 = sort_agg_rows(p + more, keys, calls);
            assert((p + more).len() > 0);
            assert(out2 == group_out_rows(p + more, keys, calls));
            assert(e == g.len() - 1);
            assert forall|t: int| 0 <= t < y.len() implies #[trigger] out2[t] == y[t] by {
                assert(y[t] == (y + pending)[t]);
                assert(t < g.len() - 1);
                assert(h[t] == g[t]);
                assert(out2[t] == out_row(key_of(h[t][0], keys), h[t], calls));
                assert(out[t] == out_row(key_of(g[t][0], keys), g[t], calls));
            }
            assert(out2.take(y.len() as int) =~= y);
        }
    }
}

impl SortAggExecutor {
    /// Starts an aggregation whose input is pushed chunk by chunk.
    pub fn into_stream(self) -> (r: SortAggStream)
        requires
            self.wf(),
        ensures
            r.wf(),
            r.keys() == self.keys(),
            r.calls() == self.calls(),
            r.limit() == self.output_size_limit,
            r.input_width() == self.input_schema.fields@.len(),
            r.rows() == Seq::<Seq<Datum>>::empty(),
            r.yielded() == Seq::<DataChunk>::empty(),
    {
        let ghost keys = self.keys();
        let ghost calls = self.calls();
        let ghost input_types = self.input_schema.types();
        let input_width = self.input_schema.len();
        let (group_builders, agg_builders) = create_builders(
            self.sorted_groupers.len(),
            self.agg_states.len(),
        );
        let state = RunState {
            sorted_groupers: self.sorted_groupers,
            agg_states: self.agg_states,
            group_builders,
            agg_builders,
            batches: Vec::new(),
            left_capacity: self.output_size_limit,
        };
        let r = SortAggStream {
            state,
            group_key: self.group_key,
            output_size_limit: self.output_size_limit,
            input_width,
            no_input_data: true,
            calls: Ghost(calls),
            rows: Ghost(Seq::empty()),
            yielded: Ghost(Seq::empty()),
        };
        proof {
            let e = Seq::<Seq<Datum>>::empty();
            assert(batch_rows(Seq::<DataChunk>::empty() + r.state.batches@) =~= e);
            assert(builder_rows(r.state.group_builders@, r.state.agg_builders@, 0) =~= e);
            assert(group_out_rows(e, keys, calls).take(0) =~= e);
            assert forall|i: int| 0 <= i < calls.len() implies (#[trigger] r.state.agg_states@[i]).call
                == calls[i] by {}
            assert forall|q: int| 0 <= q < keys.len() implies (#[trigger] keys[q]).index
                < input_width by {
                assert(key_error(keys[q], input_types) is None);
            }
            assert forall|i: int| 0 <= i < calls.len() implies match (#[trigger] calls[i]).arg {
                Some(a) => a.index < input_width,
                None => true,
            } by {
                assert(call_error(r.state.agg_states@[i].call, input_types) is None);
            }
        }
        r
    }
}

} // verus!
