//! Aggregate calls and their incremental states.
use vstd::prelude::*;

use crate::chunk::{DataChunk, Datum};
use crate::error::SortAggError;
use crate::types::{DataType, InputRef};

verus! {

/// The aggregate functions the engine evaluates.
#[derive(Clone, Copy, Debug, PartialEq, Eq, Structural)]
pub enum AggKind {
    /// `COUNT(*)` without an argument, `COUNT(x)` (non-null values) with one.
    Count,
    Sum,
    Min,
    Max,
}

/// One aggregate of the output: its function and its argument.
#[derive(Clone, Copy, Debug, PartialEq, Eq, Structural)]
pub struct AggCall {
    pub kind: AggKind,
    pub arg: Option<InputRef>,
}

pub open spec fn in_i64(v: int) -> bool {
    i64::MIN <= v <= i64::MAX
}

/// The value in the aggregate's argument column of `row`; `None` for `COUNT(*)`.
pub open spec fn arg_of(call: AggCall, row: Seq<Datum>) -> Datum {
    match call.arg {
        Some(a) => row[a.index as int],
        None => None,
    }
}

/// Whether a running value, if any, fits in 64 bits.
pub open spec fn fits_opt(v: Option<int>) -> bool {
    match v {
        Some(x) => in_i64(x),
        None => true,
    }
}

/// The running value before any row: zero for a count, NULL otherwise.
pub open spec fn agg_init(call: AggCall) -> Option<int> {
    match call.kind {
        AggKind::Count => Some(0),
        _ => None,
    }
}

/// The running value after folding one more row into `acc`.
pub open spec fn agg_step(call: AggCall, acc: Option<int>, row: Seq<Datum>) -> Option<int> {
    match call.kind {
        AggKind::Count => {
            if call.arg is None || arg_of(call, row) is Some {
                Some(acc.unwrap_or(0) + 1)
            } else {
                acc
            }
        },
        AggKind::Sum => match arg_of(call, row) {
            None => acc,
            Some(v) => Some(acc.unwrap_or(0) + v),
        },
        AggKind::Min => match arg_of(call, row) {
            None => acc,
            Some(v) => match acc {
                None => Some(v as int),
                Some(a) => Some(
                    if v < a {
                        v as int
                    } else {
                        a
                    },
                ),
            },
        },
        AggKind::Max => match arg_of(call, row) {
            None => acc,
            Some(v) => match acc {
                None => Some(v as int),
                Some(a) => Some(
                    if v > a {
                        v as int
                    } else {
                        a
                    },
                ),
            },
        },
    }
}

/// The running value after folding `rows`, in order, into `acc`.
pub open spec fn agg_fold(call: AggCall, acc: Option<int>, rows: Seq<Seq<Datum>>) -> Option<int>
    decreases rows.len(),
{
    if rows.len() == 0 {
        acc
    } else {
        agg_step(call, agg_fold(call, acc, rows.drop_last()), rows.last())
    }
}

/// Whether every running value met while folding `rows` into `acc` fits in 64 bits.
pub open spec fn agg_fits(call: AggCall, acc: Option<int>, rows: Seq<Seq<Datum>>) -> bool
    decreases rows.len(),
{
    if rows.len() == 0 {
        true
    } else {
        agg_fits(call, acc, rows.drop_last()) && fits_opt(agg_fold(call, acc, rows))
    }
}

/// The aggregate of a group of rows.
pub open spec fn agg_value(call: AggCall, rows: Seq<Seq<Datum>>) -> Option<int> {
    agg_fold(call, agg_init(call), rows)
}

/// A running value as an output datum.
pub open spec fn to_datum(v: Option<int>) -> Datum {
    match v {
        Some(x) => Some(x as i64),
        None => None,
    }
}

/// Folding a concatenation folds the second part into the result of the first.
pub proof fn lemma_agg_fold_append(
    call: AggCall,
    acc: Option<int>,
    a: Seq<Seq<Datum>>,
    b: Seq<Seq<Datum>>,
)
    ensures
        agg_fold(call, acc, a + b) == agg_fold(call, agg_fold(call, acc, a), b),
        agg_fits(call, acc, a + b) == (agg_fits(call, acc, a) && agg_fits(
            call,
            agg_fold(call, acc, a),
            b,
        )),
    decreases b.len(),
{
    if b.len() == 0 {
        assert(a + b =~= a);
    } else {
        lemma_agg_fold_append(call, acc, a, b.drop_last());
        assert((a + b).drop_last() =~= a + b.drop_last());
        assert((a + b).last() == b.last());
    }
}

impl AggCall {
    /// The type of the aggregate's result.
    pub open spec fn spec_return_type(&self) -> DataType {
        match self.kind {
            AggKind::Count | AggKind::Sum => DataType::Int64,
            _ => match self.arg {
                Some(a) => a.return_type,
                None => DataType::Int64,
            },
        }
    }

    #[verifier::when_used_as_spec(spec_return_type)]
    pub fn return_type(&self) -> (r: DataType)
        ensures
            r == self.spec_return_type(),
    {
        match self.kind {
            AggKind::Count | AggKind::Sum => DataType::Int64,
            _ => match self.arg {
                Some(a) => a.return_type,
                None => DataType::Int64,
            },
        }
    }
}

/// Why an aggregate call cannot run over an input with the given column
/// types, if it cannot.
pub open spec fn call_error(call: AggCall, input: Seq<DataType>) -> Option<SortAggError> {
    match call.arg {
        None => if call.kind is Count {
            None
        } else {
            Some(SortAggError::InvalidArgumentCount)
        },
        Some(a) => if a.index >= input.len() {
            Some(SortAggError::ColumnOutOfRange { index: a.index })
        } else if !input[a.index as int].spec_is_integer() {
            Some(SortAggError::UnsupportedType { index: a.index })
        } else {
            None
        },
    }
}

/// Checks an aggregate call against the input's column types and gives its fresh state.
pub fn build_agg(call: AggCall, input: &Vec<DataType>) -> (r: Result<AggState, SortAggError>)
    ensures
        match r {
            Ok(s) => call_error(call, input@) is None && s.call == call && s.value() == agg_init(
                call,
            ),
            Err(e) => call_error(call, input@) == Some(e),
        },
{
    match call.arg {
        None => {
            if !matches!(call.kind, AggKind::Count) {
                return Err(SortAggError::InvalidArgumentCount);
            }
        },
        Some(a) => {
            if a.index >= input.len() {
                return Err(SortAggError::ColumnOutOfRange { index: a.index });
            }
            if !input[a.index].is_integer() {
                return Err(SortAggError::UnsupportedType { index: a.index });
            }
        },
    }
    Ok(AggState::new(call))
}

/// The incremental state of one aggregate over the rows of the current group.
#[derive(Debug)]
pub struct AggState {
    pub call: AggCall,
    pub acc: Option<i64>,
}

impl AggState {
    /// The running value as a mathematical integer.
    pub open spec fn value(&self) -> Option<int> {
        match self.acc {
            Some(v) => Some(v as int),
            None => None,
        }
    }

    /// A fresh state, before any row.
    pub fn new(call: AggCall) -> (r: AggState)
        ensures
            r.call == call,
            r.value() == agg_init(call),
    {
        let acc = match call.kind {
            AggKind::Count => Some(0i64),
            _ => None,
        };
        AggState { call, acc }
    }

    pub fn return_type(&self) -> (r: DataType)
        ensures
            r == self.call.spec_return_type(),
    {
        self.call.return_type()
    }

    /// Folds one row into the state.
    fn update_one(&mut self, row_arg: Datum) -> (r: Result<(), SortAggError>)
        ensures
            final(self).call == old(self).call,
            forall|row: Seq<Datum>|
                arg_of(old(self).call, row) == row_arg ==> match r {
                    Ok(()) => final(self).value() == agg_step(old(self).call, old(self).value(), row)
                        && fits_opt(agg_step(old(self).call, old(self).value(), row)),
                    Err(e) => e == SortAggError::NumericOutOfRange && !fits_opt(
                        agg_step(old(self).call, old(self).value(), row),
                    ),
                },
    {
        match self.call.kind {
            AggKind::Count => {
                if self.call.arg.is_none() || row_arg.is_some() {
                    let c = match self.acc {
                        Some(c) => c,
                        None => 0,
                    };
                    match c.checked_add(1) {
                        Some(n) => {
                            self.acc = Some(n);
                        },
                        None => {
                            return Err(SortAggError::NumericOutOfRange);
                        },
                    }
                }
            },
            AggKind::Sum => {
                if let Some(v) = row_arg {
                    let c = match self.acc {
                        Some(c) => c,
                        None => 0,
                    };
                    match c.checked_add(v) {
                        Some(n) => {
                            self.acc = Some(n);
                        },
                        None => {
                            return Err(SortAggError::NumericOutOfRange);
                        },
                    }
                }
            },
            AggKind::Min => {
                if let Some(v) = row_arg {
                    self.acc = match self.acc {
                        None => Some(v),
                        Some(a) => Some(
                            if v < a {
                                v
                            } else {
                                a
                            },
                        ),
                    };
                }
            },
            AggKind::Max => {
                if let Some(v) = row_arg {
                    self.acc = match self.acc {
                        None => Some(v),
                        Some(a) => Some(
                            if v > a {
                                v
                            } else {
                                a
                            },
                        ),
                    };
                }
            },
        }
        Ok(())
    }
}


impl AggState {
    /// Folds rows `start..end` of `chunk` into the state, in order.
    pub fn update_multi(&mut self, chunk: &DataChunk, start: usize, end: usize) -> (r: Result<
        (),
        SortAggError,
    >)
        requires
            chunk.wf(),
            start <= end <= chunk.visibility@.len(),
            match old(self).call.arg {
                Some(a) => a.index < chunk.width(),
                None => true,
            },
        ensures
            final(self).call == old(self).call,
            match r {
                Ok(()) => agg_fits(
                    old(self).call,
                    old(self).value(),
                    chunk.rows().subrange(start as int, end as int),
                ) && final(self).value() == agg_fold(
                    old(self).call,
                    old(self).value(),
                    chunk.rows().subrange(start as int, end as int),
                ),
                Err(e) => e == SortAggError::NumericOutOfRange && !agg_fits(
                    old(self).call,
                    old(self).value(),
                    chunk.rows().subrange(start as int, end as int),
                ),
            },
    {
        let ghost call = self.call;
        let ghost v0 = self.value();
        let ghost rows = chunk.rows();
        let mut i = start;
        let mut res: Result<(), SortAggError> = Ok(());
        while i < end && res.is_ok()
            invariant
                chunk.wf(),
                rows == chunk.rows(),
                start <= i <= end <= chunk.visibility@.len(),
                self.call == call,
                match call.arg {
                    Some(a) => a.index < chunk.width(),
                    None => true,
                },
                match res {
                    Ok(()) => agg_fits(call, v0, rows.subrange(start as int, i as int))
                        && self.value() == agg_fold(call, v0, rows.subrange(start as int, i as int)),
                    Err(e) => e == SortAggError::NumericOutOfRange && !agg_fits(
                        call,
                        v0,
                        rows.subrange(start as int, end as int),
                    ),
                },
            decreases end - i,
        {
            let arg = match self.call.arg {
                Some(a) => chunk.columns[a.index][i],
                None => None,
            };
            let ghost prefix = rows.subrange(start as int, i as int);
            let ghost next = rows.subrange(start as int, i + 1);
            proof {
                assert(next.drop_last() =~= prefix);
                assert(next.last() == chunk.row(i as int));
                assert(arg_of(call, chunk.row(i as int)) == arg);
            }
            res = self.update_one(arg);
            if res.is_err() {
                proof {
                    let full = rows.subrange(start as int, end as int);
                    lemma_agg_fold_append(call, v0, next, full.subrange(i + 1 - start, full.len() as int));
                    assert(next + full.subrange(i + 1 - start, full.len() as int) =~= full);
                }
            }
            i += 1;
        }
        res
    }

    /// Appends the running value to `builder`. The state is left as it is.
    pub fn output(&self, builder: &mut Vec<Datum>)
        ensures
            final(builder)@ == old(builder)@.push(to_datum(self.value())),
    {
        builder.push(self.acc);
    }
}

} // verus!
