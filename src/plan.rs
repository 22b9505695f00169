//! Plan nodes whose output shape derives from their inputs'.
use vstd::prelude::*;

use crate::types::{DataType, Field, Schema};

verus! {

/// What a plan node tells its parents about its output.
pub struct PlanInfo {
    pub schema: Schema,
    /// The columns that identify a row of the output stream, if known.
    pub stream_key: Option<Vec<usize>>,
}

/// The union of the rows of its inputs: a base case, then the rows that the
/// recursive part derives from them, iteration by iteration.
pub struct RecursiveUnion<PlanRef> {
    pub base: PlanRef,
    pub recursive: PlanRef,
}

/// The name of the column that numbers the iterations.
pub open spec fn iter_column_name() -> Seq<char> {
    seq!['$', 'i', 't', 'e', 'r']
}

impl RecursiveUnion<PlanInfo> {
    /// The base's columns, then an `Int16` column `$iter` with the iteration number.
    pub fn schema(&self) -> (r: Schema)
        ensures
            r.fields@.len() == self.base.schema.fields@.len() + 1,
            forall|i: int|
                0 <= i < self.base.schema.fields@.len() ==> (#[trigger] r.fields@[i]).name@
                    == self.base.schema.fields@[i].name@ && r.fields@[i].data_type
                    == self.base.schema.fields@[i].data_type,
            r.fields@.last().name@ == iter_column_name(),
            r.fields@.last().data_type == DataType::Int16,
    {
        let base = &self.base.schema.fields;
        let mut fields: Vec<Field> = Vec::new();
        let mut i: usize = 0;
        while i < base.len()
            invariant
                i <= base@.len(),
                fields@.len() == i,
                forall|k: int|
                    0 <= k < i ==> (#[trigger] fields@[k]).name@ == base@[k].name@
                        && fields@[k].data_type == base@[k].data_type,
            decreases base@.len() - i,
        {
            fields.push(base[i].duplicate());
            i += 1;
        }
        proof {
            reveal_strlit("$iter");
        }
        let iter_field = Field::with_name(DataType::Int16, "$iter".to_owned());
        fields.push(iter_field);
        proof {
            assert(iter_field.name@ =~= iter_column_name());
        }
        Schema { fields }
    }

    /// The base's stream key extended with the `$iter` column; unknown if the
    /// base's is unknown.
    pub fn stream_key(&self) -> (r: Option<Vec<usize>>)
        ensures
            match self.base.stream_key {
                None => r is None,
                Some(k) => r matches Some(rk) && rk@ == k@.push(
                    self.base.schema.fields@.len() as usize,
                ),
            },
    {
        let fields_len = self.base.schema.len();
        match &self.base.stream_key {
            Some(base) => {
                let mut key: Vec<usize> = Vec::new();
                let mut i: usize = 0;
                while i < base.len()
                    invariant
                        i <= base@.len(),
                        key@ == base@.take(i as int),
                    decreases base@.len() - i,
                {
                    key.push(base[i]);
                    i += 1;
                    proof {
                        assert(key@ =~= base@.take(i as int));
                    }
                }
                key.push(fields_len);
                proof {
                    assert(key@ =~= base@.push(fields_len));
                }
                Some(key)
            },
            None => None,
        }
    }
}

} // verus!
