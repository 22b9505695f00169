//! Column types, fields and schemas.
use vstd::prelude::*;

verus! {

/// The type of a column.
#[derive(Clone, Copy, Debug, PartialEq, Eq, Structural)]
pub enum DataType {
    Int16,
    Int32,
    Int64,
    Varchar,
}

impl DataType {
    /// Whether values of this type are held as integers by the engine.
    pub open spec fn spec_is_integer(&self) -> bool {
        !(self is Varchar)
    }

    #[verifier::when_used_as_spec(spec_is_integer)]
    pub fn is_integer(&self) -> (r: bool)
        ensures
            r == self.spec_is_integer(),
    {
        !matches!(self, DataType::Varchar)
    }
}

/// A named, typed column of a schema.
#[derive(Clone, Debug)]
pub struct Field {
    pub name: String,
    pub data_type: DataType,
}

impl Field {
    /// A field without a name.
    pub fn unnamed(data_type: DataType) -> (r: Field)
        ensures
            r.name@ == Seq::<char>::empty(),
            r.data_type == data_type,
    {
        Field { name: String::new(), data_type }
    }

    /// A copy of this field.
    pub fn duplicate(&self) -> (r: Field)
        ensures
            r.name@ == self.name@,
            r.data_type == self.data_type,
    {
        Field { name: self.name.clone(), data_type: self.data_type }
    }

    /// A field with the given name.
    pub fn with_name(data_type: DataType, name: String) -> (r: Field)
        ensures
            r.name@ == name@,
            r.data_type == data_type,
    {
        Field { name, data_type }
    }
}

/// An ordered list of fields.
#[derive(Clone, Debug)]
pub struct Schema {
    pub fields: Vec<Field>,
}

impl Schema {
    /// The column types of the schema, in order.
    pub open spec fn types(&self) -> Seq<DataType> {
        self.fields@.map_values(|f: Field| f.data_type)
    }

    /// Whether no field has a name.
    pub open spec fn all_unnamed(&self) -> bool {
        forall|i: int| 0 <= i < self.fields@.len() ==> (#[trigger] self.fields@[i]).name@.len() == 0
    }

    pub fn len(&self) -> (r: usize)
        ensures
            r == self.fields@.len(),
    {
        self.fields.len()
    }

    /// The column types, in order.
    pub fn data_types(&self) -> (r: Vec<DataType>)
        ensures
            r@ == self.types(),
    {
        let mut out: Vec<DataType> = Vec::new();
        let mut i: usize = 0;
        while i < self.fields.len()
            invariant
                i <= self.fields@.len(),
                out@ == self.types().take(i as int),
            decreases self.fields@.len() - i,
        {
            out.push(self.fields[i].data_type);
            i += 1;
            proof {
                assert(out@ =~= self.types().take(i as int));
            }
        }
        proof {
            assert(self.types().take(i as int) =~= self.types());
        }
        out
    }
}

} // verus!

verus! {

/// A reference to an input column, the only form of key or argument expression.
#[derive(Clone, Copy, Debug, PartialEq, Eq, Structural)]
pub struct InputRef {
    pub index: usize,
    pub return_type: DataType,
}

impl InputRef {
    pub fn new(index: usize, return_type: DataType) -> (r: InputRef)
        ensures
            r.index == index,
            r.return_type == return_type,
    {
        InputRef { index, return_type }
    }
}

} // verus!

verus! {

impl InputRef {
    /// The referenced column of `chunk`.
    pub fn eval(&self, chunk: &crate::chunk::DataChunk) -> (r: Vec<crate::chunk::Datum>)
        requires
            self.index < chunk.columns@.len(),
        ensures
            r@ == chunk.columns@[self.index as int]@,
    {
        let col = &chunk.columns[self.index];
        let mut out: Vec<crate::chunk::Datum> = Vec::new();
        let mut i: usize = 0;
        while i < col.len()
            invariant
                i <= col@.len(),
                out@ == col@.subrange(0, i as int),
            decreases col@.len() - i,
        {
            out.push(col[i]);
            i += 1;
            proof {
                assert(out@ =~= col@.subrange(0, i as int));
            }
        }
        proof {
            assert(col@.subrange(0, i as int) =~= col@);
        }
        out
    }
}

} // verus!
