use vstd::prelude::*;
use crate::value::{Value, ValueView};

verus! {

/// One variable's values at the positions a query selected.
#[derive(Clone, Debug, PartialEq, PartialOrd)]
pub struct PrintOfState {
    pub name: String,
    pub values: Vec<Value>,
}

impl View for PrintOfState {
    type V = (Seq<char>, Seq<ValueView>);

    open spec fn view(&self) -> (Seq<char>, Seq<ValueView>) {
        (self.name@, self.values@.map_values(|v: Value| v@))
    }
}

impl PrintOfState {
    pub fn new(name: &String, values: Vec<Value>) -> (r: PrintOfState)
        ensures
            r.name@ == name@,
            r.values == values,
    {
        PrintOfState { name: name.clone(), values }
    }
}

} // verus!
