//! The types of the values stored in tables.
use vstd::prelude::*;

verus! {

/// The type of a stored value; strings and byte arrays carry their length.
#[derive(Copy, Clone, Debug, Hash, PartialEq, Eq, Structural)]
pub enum DataType {
    Boolean,
    Integer,
    Float,
    String(usize),
    Long,
    ByteArray(usize),
}

impl DataType {
    /// The upper-case name of the type, as it is displayed.
    pub fn name(&self) -> (r: &'static str)
        ensures
            match *self {
                DataType::Boolean => r@ == "BOOLEAN"@,
                DataType::Integer => r@ == "INTEGER"@,
                DataType::Float => r@ == "FLOAT"@,
                DataType::String(_) => r@ == "STRING"@,
                DataType::Long => r@ == "LONG"@,
                DataType::ByteArray(_) => r@ == "BYTEARRAY"@,
            },
    {
        match self {
            DataType::Boolean => "BOOLEAN",
            DataType::Integer => "INTEGER",
            DataType::Float => "FLOAT",
            DataType::String(_) => "STRING",
            DataType::Long => "LONG",
            DataType::ByteArray(_) => "BYTEARRAY",
        }
    }
}

} // verus!
