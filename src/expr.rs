use vstd::prelude::*;
use crate::value::Value;
use crate::compared::CompareOp;

verus! {

/// A variable binding `name = value`.
#[derive(Clone, Debug)]
pub struct DataVar {
    pub name: String,
    pub value: Value,
}

/// A predicate `left op right`; a `Symbol` side names a variable.
#[derive(Clone, Debug)]
pub struct BinaryExpr {
    pub left: Value,
    pub right: Value,
    pub op: CompareOp,
}

impl DataVar {
    pub fn new(name: String, value: Value) -> (r: DataVar)
        ensures
            r.name == name,
            r.value == value,
    {
        DataVar { name, value }
    }
}

impl BinaryExpr {
    pub fn new(left: Value, right: Value, op: CompareOp) -> (r: BinaryExpr)
        ensures
            r.left == left,
            r.right == right,
            r.op == op,
    {
        BinaryExpr { left, right, op }
    }
}

} // verus!
