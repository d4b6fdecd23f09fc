//! The scalar inputs that the guest sees as immutable globals.

use vstd::prelude::*;
use vstd::string::StringExecFns;

verus! {

/// The namespace under which the guest imports its inputs.
pub const MODULE: &'static str = "index";

/// An immutable 32-bit integer global to define for the guest.
#[derive(Debug, Clone, PartialEq, Eq)]
pub struct InputBinding {
    /// The name under which the guest imports the global.
    pub name: String,
    /// The value of the global.
    pub value: i32,
}

/// The name under which the guest imports the input configured as `key`.
pub open spec fn global_name(key: Seq<char>) -> Seq<char> {
    "input."@ + key
}

/// The name under which the guest imports the input configured as `key`.
pub fn input_name(key: &str) -> (name: String)
    ensures
        name@ == global_name(key@),
{
    let mut name = "input.".to_owned();
    name.append(key);
    name
}

/// Plans one global for each configured input, in the configured order.
pub fn link(inputs: &Vec<(String, i32)>) -> (bindings: Vec<InputBinding>)
    ensures
        bindings@.len() == inputs@.len(),
        forall|i: int|
            0 <= i < inputs@.len() ==> {
                &&& (#[trigger] bindings@[i]).name@ == global_name(inputs@[i].0@)
                &&& bindings@[i].value == inputs@[i].1
            },
{
    let mut bindings: Vec<InputBinding> = Vec::new();
    let mut i: usize = 0;
    while i < inputs.len()
        invariant
            i <= inputs.len(),
            bindings@.len() == i,
            forall|j: int|
                0 <= j < i ==> {
                    &&& (#[trigger] bindings@[j]).name@ == global_name(inputs@[j].0@)
                    &&& bindings@[j].value == inputs@[j].1
                },
        decreases inputs.len() - i,
    {
        let name = input_name(inputs[i].0.as_str());
        bindings.push(InputBinding { name, value: inputs[i].1 });
        i += 1;
    }
    bindings
}

} // verus!
