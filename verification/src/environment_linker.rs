//! The registry of mocked calls of the `environment` namespace.

use crate::csv_deserializer::{
    decode_record, from_str, outcome_view, DecodeError, FieldKind, FieldSpec, FieldValue, Shape,
};
use crate::error::ConfigurationError;
use crate::text::same_text;
use vstd::prelude::*;

verus! {

/// The namespace under which the guest imports these calls.
pub const MODULE: &'static str = "environment";

/// The price that the mocked price query answers with.
pub const ETH_PRICE: i32 = 42;

/// How long the mocked price query suspends the guest, in seconds.
pub const ETH_PRICE_DELAY_SECONDS: u64 = 1;

/// A call of this namespace that a mock exists for.
#[derive(Debug, Clone, Copy, PartialEq, Eq, Structural)]
pub enum EnvironmentCall {
    /// `getETHPrice`: takes nothing, suspends, then answers with a price.
    GetEthPrice,
    /// `_call`: takes a call record.
    Call,
    /// `_swap`: takes a swap record.
    Swap,
    /// `_transfer`: takes a transfer record.
    Transfer,
}

/// The call that a configured name selects, if there is one.
pub open spec fn call_named(name: Seq<char>) -> Option<EnvironmentCall> {
    if name == "getETHPrice"@ {
        Some(EnvironmentCall::GetEthPrice)
    } else if name == "_call"@ {
        Some(EnvironmentCall::Call)
    } else if name == "_swap"@ {
        Some(EnvironmentCall::Swap)
    } else if name == "_transfer"@ {
        Some(EnvironmentCall::Transfer)
    } else {
        None
    }
}

/// The declared fields of a call record.
pub open spec fn call_fields() -> Seq<(Seq<char>, FieldKind)> {
    seq![
        ("settler"@, FieldKind::Text),
        ("chain_id"@, FieldKind::Unsigned),
        ("target"@, FieldKind::Text),
        ("fee_token"@, FieldKind::Text),
        ("fee_amount"@, FieldKind::Text),
        ("data"@, FieldKind::Optional(Box::new(FieldKind::Text))),
    ]
}

/// The declared fields of a swap record.
pub open spec fn swap_fields() -> Seq<(Seq<char>, FieldKind)> {
    seq![
        ("settler"@, FieldKind::Text),
        ("source_chain_id"@, FieldKind::Unsigned),
        ("token_in"@, FieldKind::Text),
        ("amount_in"@, FieldKind::Text),
        ("token_out"@, FieldKind::Text),
        ("min_amount_out"@, FieldKind::Text),
        ("destination_chain_id"@, FieldKind::Unsigned),
    ]
}

/// The declared fields of a transfer record.
pub open spec fn transfer_fields() -> Seq<(Seq<char>, FieldKind)> {
    seq![
        ("settler"@, FieldKind::Text),
        ("source_chain_id"@, FieldKind::Unsigned),
        ("token"@, FieldKind::Text),
        ("amount"@, FieldKind::Text),
        ("recipient"@, FieldKind::Text),
        ("fee_amount"@, FieldKind::Text),
    ]
}

/// The kinds of a list of declared fields.
pub open spec fn kinds_of(fields: Seq<(Seq<char>, FieldKind)>) -> Seq<FieldKind> {
    Seq::new(fields.len(), |i: int| fields[i].1)
}

impl EnvironmentCall {
    /// The name under which the guest imports the call.
    pub open spec fn spec_name(self) -> Seq<char> {
        match self {
            EnvironmentCall::GetEthPrice => "getETHPrice"@,
            EnvironmentCall::Call => "_call"@,
            EnvironmentCall::Swap => "_swap"@,
            EnvironmentCall::Transfer => "_transfer"@,
        }
    }

    /// The fields of the record that the call takes; `None` for a call
    /// that takes no record.
    pub open spec fn spec_parameters(self) -> Option<Seq<(Seq<char>, FieldKind)>> {
        match self {
            EnvironmentCall::GetEthPrice => None,
            EnvironmentCall::Call => Some(call_fields()),
            EnvironmentCall::Swap => Some(swap_fields()),
            EnvironmentCall::Transfer => Some(transfer_fields()),
        }
    }

    /// The call that `name` selects, if a mock exists for it.
    pub fn from_name(name: &str) -> (call: Option<EnvironmentCall>)
        ensures
            call == call_named(name@),
    {
        if same_text(name, "getETHPrice") {
            Some(EnvironmentCall::GetEthPrice)
        } else if same_text(name, "_call") {
            Some(EnvironmentCall::Call)
        } else if same_text(name, "_swap") {
            Some(EnvironmentCall::Swap)
        } else if same_text(name, "_transfer") {
            Some(EnvironmentCall::Transfer)
        } else {
            None
        }
    }

    /// The name under which the guest imports the call.
    pub fn name(&self) -> (name: &'static str)
        ensures
            name@ == self.spec_name(),
    {
        match self {
            EnvironmentCall::GetEthPrice => "getETHPrice",
            EnvironmentCall::Call => "_call",
            EnvironmentCall::Swap => "_swap",
            EnvironmentCall::Transfer => "_transfer",
        }
    }

    /// Whether the call suspends the guest before it answers.
    pub fn is_async(&self) -> (suspends: bool)
        ensures
            suspends == (*self == EnvironmentCall::GetEthPrice),
    {
        match self {
            EnvironmentCall::GetEthPrice => true,
            _ => false,
        }
    }

    /// The shape of the record that the call takes; `None` for a call that
    /// takes no record.
    pub fn parameters(&self) -> (shape: Option<Shape>)
        ensures
            match shape {
                Some(s) => self.spec_parameters() == Some(s.declared()),
                None => self.spec_parameters() is None,
            },
    {
        match self {
            EnvironmentCall::GetEthPrice => None,
            EnvironmentCall::Call => Some(call_shape()),
            EnvironmentCall::Swap => Some(swap_shape()),
            EnvironmentCall::Transfer => Some(transfer_shape()),
        }
    }
}

/// The shape of a call record.
pub fn call_shape() -> (shape: Shape)
    ensures
        shape.declared() == call_fields(),
{
    let mut fields: Vec<FieldSpec> = Vec::new();
    fields.push(FieldSpec::new("settler", FieldKind::Text));
    fields.push(FieldSpec::new("chain_id", FieldKind::Unsigned));
    fields.push(FieldSpec::new("target", FieldKind::Text));
    fields.push(FieldSpec::new("fee_token", FieldKind::Text));
    fields.push(FieldSpec::new("fee_amount", FieldKind::Text));
    fields.push(FieldSpec::new("data", FieldKind::optional(FieldKind::Text)));
    let shape = Shape::new(fields);
    assert(shape.declared() =~= call_fields());
    shape
}

/// The shape of a swap record.
pub fn swap_shape() -> (shape: Shape)
    ensures
        shape.declared() == swap_fields(),
{
    let mut fields: Vec<FieldSpec> = Vec::new();
    fields.push(FieldSpec::new("settler", FieldKind::Text));
    fields.push(FieldSpec::new("source_chain_id", FieldKind::Unsigned));
    fields.push(FieldSpec::new("token_in", FieldKind::Text));
    fields.push(FieldSpec::new("amount_in", FieldKind::Text));
    fields.push(FieldSpec::new("token_out", FieldKind::Text));
    fields.push(FieldSpec::new("min_amount_out", FieldKind::Text));
    fields.push(FieldSpec::new("destination_chain_id", FieldKind::Unsigned));
    let shape = Shape::new(fields);
    assert(shape.declared() =~= swap_fields());
    shape
}

/// The shape of a transfer record.
pub fn transfer_shape() -> (shape: Shape)
    ensures
        shape.declared() == transfer_fields(),
{
    let mut fields: Vec<FieldSpec> = Vec::new();
    fields.push(FieldSpec::new("settler", FieldKind::Text));
    fields.push(FieldSpec::new("source_chain_id", FieldKind::Unsigned));
    fields.push(FieldSpec::new("token", FieldKind::Text));
    fields.push(FieldSpec::new("amount", FieldKind::Text));
    fields.push(FieldSpec::new("recipient", FieldKind::Text));
    fields.push(FieldSpec::new("fee_amount", FieldKind::Text));
    let shape = Shape::new(fields);
    assert(shape.declared() =~= transfer_fields());
    shape
}

/// Decodes the record that the guest hands to `_call`.
pub fn create_call(raw: &str) -> (outcome: Result<Vec<FieldValue>, DecodeError>)
    ensures
        outcome_view(outcome) == decode_record(raw@, kinds_of(call_fields())),
{
    let shape = call_shape();
    assert(shape.kinds() =~= kinds_of(shape.declared()));
    from_str(raw, &shape)
}

/// Decodes the record that the guest hands to `_swap`.
pub fn swap(raw: &str) -> (outcome: Result<Vec<FieldValue>, DecodeError>)
    ensures
        outcome_view(outcome) == decode_record(raw@, kinds_of(swap_fields())),
{
    let shape = swap_shape();
    assert(shape.kinds() =~= kinds_of(shape.declared()));
    from_str(raw, &shape)
}

/// Decodes the record that the guest hands to `_transfer`.
pub fn transfer(raw: &str) -> (outcome: Result<Vec<FieldValue>, DecodeError>)
    ensures
        outcome_view(outcome) == decode_record(raw@, kinds_of(transfer_fields())),
{
    let shape = transfer_shape();
    assert(shape.kinds() =~= kinds_of(shape.declared()));
    from_str(raw, &shape)
}

/// Binds each configured call name to its mock, in the configured order.
///
/// Setup succeeds only if a mock exists for every name. Otherwise it fails
/// with the first name that has none.
pub fn link(inputs: &Vec<String>) -> (outcome: Result<Vec<EnvironmentCall>, ConfigurationError>)
    ensures
        outcome is Ok <==> forall|i: int|
            0 <= i < inputs@.len() ==> call_named(#[trigger] inputs@[i]@) is Some,
        match outcome {
            Ok(calls) => {
                &&& calls@.len() == inputs@.len()
                &&& forall|i: int|
                    0 <= i < inputs@.len() ==> call_named(inputs@[i]@) == Some(#[trigger] calls@[i])
            },
            Err(e) => exists|i: int|
                {
                    &&& 0 <= i < inputs@.len()
                    &&& call_named(#[trigger] inputs@[i]@) is None
                    &&& e.call@ == inputs@[i]@
                    &&& forall|j: int| 0 <= j < i ==> call_named(#[trigger] inputs@[j]@) is Some
                },
        },
{
    let mut calls: Vec<EnvironmentCall> = Vec::new();
    let mut i: usize = 0;
    while i < inputs.len()
        invariant
            i <= inputs.len(),
            calls@.len() == i,
            forall|j: int| 0 <= j < i ==> call_named(inputs@[j]@) == Some(#[trigger] calls@[j]),
        decreases inputs.len() - i,
    {
        match EnvironmentCall::from_name(inputs[i].as_str()) {
            Some(call) => {
                calls.push(call);
            },
            None => {
                let e = ConfigurationError { call: inputs[i].clone() };
                assert(call_named(inputs@[i as int]@) is None);
                assert forall|j: int| 0 <= j < i implies call_named(
                    #[trigger] inputs@[j]@,
                ) is Some by {
                    assert(call_named(inputs@[j]@) == Some(calls@[j]));
                }
                return Err(e);
            },
        }
        i += 1;
    }
    assert forall|j: int| 0 <= j < inputs@.len() implies call_named(
        #[trigger] inputs@[j]@,
    ) is Some by {
        assert(call_named(inputs@[j]@) == Some(calls@[j]));
    }
    Ok(calls)
}

/// Every call is selected by its own name and by no other name.
pub proof fn lemma_call_names_resolve(call: EnvironmentCall, name: Seq<char>)
    ensures
        call_named(call.spec_name()) == Some(call),
        call_named(name) == Some(call) <==> name == call.spec_name(),
{
    reveal_strlit("getETHPrice");
    reveal_strlit("_call");
    reveal_strlit("_swap");
    reveal_strlit("_transfer");
    assert("getETHPrice"@[0] != "_call"@[0]);
    assert("getETHPrice"@[0] != "_swap"@[0]);
    assert("getETHPrice"@[0] != "_transfer"@[0]);
    assert("_call"@[1] != "_swap"@[1]);
    assert("_call"@[1] != "_transfer"@[1]);
    assert("_swap"@[1] != "_transfer"@[1]);
}

} // verus!
