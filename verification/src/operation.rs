//! Operations: tagged records describing a pending write.

use vstd::prelude::*;

use crate::value::Value;

verus! {

/// The kind of operation submitted to a backend.
#[derive(Clone, Copy, Debug, PartialEq, Eq, Structural)]
pub enum OpType {
    CREATE,
    UPDATE,
    DELETE,
    QUERY,
    COUNT,
}

/// An operation on a collection: create and update carry a full document,
/// delete carries the primary-key value.
#[derive(Debug)]
pub struct Operation {
    pub collection: String,
    pub op_type: OpType,
    pub data: Value,
    pub indexes: Vec<String>,
}

impl Operation {
    /// Retrieves the name of the collection.
    pub fn collection(&self) -> (r: String)
        ensures
            r@ == self.collection@,
    {
        self.collection.clone()
    }

    /// Retrieves the type of operation.
    pub fn op_type(&self) -> (r: OpType)
        ensures
            r == self.op_type,
    {
        self.op_type
    }

    /// Retrieves the data involved in the operation.
    pub fn data(&self) -> (r: &Value)
        ensures
            r == &self.data,
    {
        &self.data
    }

    /// Retrieves the indexes related to the operation.
    pub fn indexes(&self) -> (r: &Vec<String>)
        ensures
            r == &self.indexes,
    {
        &self.indexes
    }
}

} // verus!
