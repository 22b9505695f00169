//! Settings of an Elasticsearch or OpenSearch sink, and their checks.
use vstd::prelude::*;

use crate::types::{DataType, Schema};

verus! {

/// How the sink reaches the search engine and which index it writes to.
#[derive(Clone, Debug)]
pub struct ElasticSearchOpenSearchConfig {
    pub url: String,
    /// The fixed index to write to.
    pub index: Option<String>,
    /// The separator between primary key values in a document id.
    pub delimiter: Option<String>,
    pub username: String,
    pub password: String,
    /// The column whose value names each row's index; exclusive with `index`.
    pub index_column: Option<usize>,
}

/// Why a sink's settings were refused.
#[derive(Clone, Copy, Debug, PartialEq, Eq, Structural)]
pub enum SinkConfigError {
    /// Exactly one of `index` and `index_column` must be set.
    IndexOrIndexColumn,
    /// The column named by `index_column` must hold strings.
    IndexColumnNotVarchar { index_column: usize },
}

/// Checks that exactly one way of choosing the index is set, and that a
/// dynamic index is read from a string column.
pub fn validate_config(config: &ElasticSearchOpenSearchConfig, schema: &Schema) -> (r: Result<
    (),
    SinkConfigError,
>)
    requires
        config.index_column matches Some(c) ==> c < schema.fields@.len(),
    ensures
        (config.index_column is Some) == (config.index is Some) ==> r == Err::<
            (),
            SinkConfigError,
        >(SinkConfigError::IndexOrIndexColumn),
        (config.index_column is Some) != (config.index is Some) ==> match config.index_column {
            Some(c) => if schema.fields@[c as int].data_type == DataType::Varchar {
                r is Ok
            } else {
                r == Err::<(), SinkConfigError>(
                    SinkConfigError::IndexColumnNotVarchar { index_column: c },
                )
            },
            None => r is Ok,
        },
{
    if config.index_column.is_some() && config.index.is_some() || config.index_column.is_none()
        && config.index.is_none() {
        return Err(SinkConfigError::IndexOrIndexColumn);
    }
    if let Some(index_column) = config.index_column {
        let field = &schema.fields[index_column];
        if !matches!(field.data_type, DataType::Varchar) {
            return Err(SinkConfigError::IndexColumnNotVarchar { index_column });
        }
    }
    Ok(())
}


/// The property that names the column holding each row's index.
pub const ES_OPTION_INDEX_COLUMN: &'static str = "index_column";

/// The position of the first field of `schema` called `name`, if any.
pub fn index_column_position(schema: &Schema, name: &String) -> (r: Option<usize>)
    ensures
        match r {
            Some(i) => i < schema.fields@.len() && schema.fields@[i as int].name@ == name@ && forall|
                j: int,
            |
                0 <= j < i ==> (#[trigger] schema.fields@[j]).name@ != name@,
            None => forall|j: int|
                0 <= j < schema.fields@.len() ==> (#[trigger] schema.fields@[j]).name@ != name@,
        },
{
    let mut i: usize = 0;
    while i < schema.fields.len()
        invariant
            i <= schema.fields@.len(),
            forall|j: int| 0 <= j < i ==> (#[trigger] schema.fields@[j]).name@ != name@,
        decreases schema.fields@.len() - i,
    {
        if schema.fields[i].name == *name {
            return Some(i);
        }
        i += 1;
    }
    None
}

} // verus!
