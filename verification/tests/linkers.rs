use mock_runner::csv_deserializer::{DecodeError, FieldKind, FieldValue};
use mock_runner::environment_linker::{
    call_shape, create_call, swap, swap_shape, transfer, transfer_shape, EnvironmentCall,
};
use mock_runner::error::ConfigurationError;
use mock_runner::input_linker::{input_name, InputBinding};
use mock_runner::system_linker::{abort_message, SystemCall};

fn names(list: &[&str]) -> Vec<String> {
    list.iter().map(|s| s.to_string()).collect()
}

fn text(s: &str) -> FieldValue {
    FieldValue::Text(s.to_string())
}

#[test]
fn environment_link_binds_every_known_name_in_order() {
    assert_eq!(
        mock_runner::environment_linker::link(&names(&["_swap", "getETHPrice", "_call", "_transfer"])),
        Ok(vec![
            EnvironmentCall::Swap,
            EnvironmentCall::GetEthPrice,
            EnvironmentCall::Call,
            EnvironmentCall::Transfer
        ])
    );
    assert_eq!(mock_runner::environment_linker::link(&names(&[])), Ok(vec![]));
    assert_eq!(
        mock_runner::environment_linker::link(&names(&["_call", "_call"])),
        Ok(vec![EnvironmentCall::Call, EnvironmentCall::Call])
    );
}

#[test]
fn environment_link_fails_on_a_name_without_a_mock() {
    assert_eq!(
        mock_runner::environment_linker::link(&names(&["getETHPrice", "bogus"])),
        Err(ConfigurationError { call: "bogus".to_string() })
    );
    assert_eq!(
        mock_runner::environment_linker::link(&names(&["first", "_call", "second"])),
        Err(ConfigurationError { call: "first".to_string() })
    );
    assert_eq!(
        mock_runner::environment_linker::link(&names(&["abort"])),
        Err(ConfigurationError { call: "abort".to_string() })
    );
    assert_eq!(
        mock_runner::environment_linker::link(&names(&["getethprice"])),
        Err(ConfigurationError { call: "getethprice".to_string() })
    );
    assert_eq!(
        mock_runner::environment_linker::link(&names(&[""])),
        Err(ConfigurationError { call: "".to_string() })
    );
}

#[test]
fn system_link_knows_abort_only() {
    assert_eq!(
        mock_runner::system_linker::link(&names(&["abort"])),
        Ok(vec![SystemCall::Abort])
    );
    assert_eq!(mock_runner::system_linker::link(&names(&[])), Ok(vec![]));
    assert_eq!(
        mock_runner::system_linker::link(&names(&["abort", "trace"])),
        Err(ConfigurationError { call: "trace".to_string() })
    );
    assert_eq!(
        mock_runner::system_linker::link(&names(&["_call"])),
        Err(ConfigurationError { call: "_call".to_string() })
    );
}

#[test]
fn call_names_round_trip() {
    for call in [
        EnvironmentCall::GetEthPrice,
        EnvironmentCall::Call,
        EnvironmentCall::Swap,
        EnvironmentCall::Transfer,
    ] {
        assert_eq!(EnvironmentCall::from_name(call.name()), Some(call));
    }
    assert_eq!(EnvironmentCall::GetEthPrice.name(), "getETHPrice");
    assert_eq!(EnvironmentCall::Call.name(), "_call");
    assert_eq!(EnvironmentCall::Swap.name(), "_swap");
    assert_eq!(EnvironmentCall::Transfer.name(), "_transfer");
    assert_eq!(EnvironmentCall::from_name("call"), None);
    assert_eq!(SystemCall::from_name(SystemCall::Abort.name()), Some(SystemCall::Abort));
    assert_eq!(SystemCall::Abort.name(), "abort");
    assert_eq!(SystemCall::from_name("Abort"), None);
}

#[test]
fn namespaces_and_canned_values() {
    assert_eq!(mock_runner::environment_linker::MODULE, "environment");
    assert_eq!(mock_runner::system_linker::MODULE, "env");
    assert_eq!(mock_runner::input_linker::MODULE, "index");
    assert_eq!(mock_runner::environment_linker::ETH_PRICE, 42);
    assert_eq!(mock_runner::environment_linker::ETH_PRICE_DELAY_SECONDS, 1);
}

#[test]
fn only_the_price_query_suspends() {
    assert!(EnvironmentCall::GetEthPrice.is_async());
    assert!(!EnvironmentCall::Call.is_async());
    assert!(!EnvironmentCall::Swap.is_async());
    assert!(!EnvironmentCall::Transfer.is_async());
}

fn declared(shape: &mock_runner::csv_deserializer::Shape) -> Vec<(String, &FieldKind)> {
    shape.fields.iter().map(|f| (f.name.clone(), &f.kind)).collect()
}

#[test]
fn shapes_declare_their_fields_in_order() {
    let optional_text = FieldKind::optional(FieldKind::Text);
    assert_eq!(
        declared(&call_shape()),
        vec![
            ("settler".to_string(), &FieldKind::Text),
            ("chain_id".to_string(), &FieldKind::Unsigned),
            ("target".to_string(), &FieldKind::Text),
            ("fee_token".to_string(), &FieldKind::Text),
            ("fee_amount".to_string(), &FieldKind::Text),
            ("data".to_string(), &optional_text),
        ]
    );
    assert_eq!(
        declared(&swap_shape()),
        vec![
            ("settler".to_string(), &FieldKind::Text),
            ("source_chain_id".to_string(), &FieldKind::Unsigned),
            ("token_in".to_string(), &FieldKind::Text),
            ("amount_in".to_string(), &FieldKind::Text),
            ("token_out".to_string(), &FieldKind::Text),
            ("min_amount_out".to_string(), &FieldKind::Text),
            ("destination_chain_id".to_string(), &FieldKind::Unsigned),
        ]
    );
    assert_eq!(
        declared(&transfer_shape()),
        vec![
            ("settler".to_string(), &FieldKind::Text),
            ("source_chain_id".to_string(), &FieldKind::Unsigned),
            ("token".to_string(), &FieldKind::Text),
            ("amount".to_string(), &FieldKind::Text),
            ("recipient".to_string(), &FieldKind::Text),
            ("fee_amount".to_string(), &FieldKind::Text),
        ]
    );
    assert_eq!(EnvironmentCall::GetEthPrice.parameters(), None);
    assert_eq!(EnvironmentCall::Call.parameters(), Some(call_shape()));
    assert_eq!(EnvironmentCall::Swap.parameters(), Some(swap_shape()));
    assert_eq!(EnvironmentCall::Transfer.parameters(), Some(transfer_shape()));
}

#[test]
fn call_record_decodes() {
    assert_eq!(
        create_call("0xabc,1,0xdef,0xfee,BigInt(1000000000000000000000),0x1234"),
        Ok(vec![
            text("0xabc"),
            FieldValue::Integer(1),
            text("0xdef"),
            text("0xfee"),
            text("1000000000000000000000"),
            text("0x1234"),
        ])
    );
    assert_eq!(
        create_call("0xabc,1,0xdef,0xfee,5,"),
        Ok(vec![
            text("0xabc"),
            FieldValue::Integer(1),
            text("0xdef"),
            text("0xfee"),
            text("5"),
            FieldValue::Absent,
        ])
    );
    assert_eq!(
        create_call("0xabc,1,0xdef,0xfee,5"),
        Err(DecodeError::MissingField { index: 5 })
    );
    assert_eq!(
        create_call("0xabc,-1,0xdef,0xfee,5,"),
        Err(DecodeError::TypeMismatch { index: 1 })
    );
}

#[test]
fn swap_record_decodes() {
    assert_eq!(
        swap("s,10,in,BigInt(5),out,BigInt(4),137"),
        Ok(vec![
            text("s"),
            FieldValue::Integer(10),
            text("in"),
            text("5"),
            text("out"),
            text("4"),
            FieldValue::Integer(137),
        ])
    );
    assert_eq!(
        swap("s,10,in,5,out,4,polygon"),
        Err(DecodeError::TypeMismatch { index: 6 })
    );
    assert_eq!(swap("s,10,in,5,out,4"), Err(DecodeError::MissingField { index: 6 }));
}

#[test]
fn transfer_record_decodes() {
    assert_eq!(
        transfer("s,1,tok,BigInt(99),bob,BigInt(1)"),
        Ok(vec![
            text("s"),
            FieldValue::Integer(1),
            text("tok"),
            text("99"),
            text("bob"),
            text("1"),
        ])
    );
    assert_eq!(transfer("s,one,tok,99,bob,1"), Err(DecodeError::TypeMismatch { index: 1 }));
    assert_eq!(transfer(""), Err(DecodeError::MissingField { index: 1 }));
}

#[test]
fn abort_report_holds_all_four_details() {
    let report = abort_message("bad state", "main", 7, 3);
    assert_eq!(report, "abort: bad state in main at line 7, column 3");
    assert!(report.contains("bad state"));
    assert!(report.contains("main"));
    assert!(report.contains("7"));
    assert!(report.contains("3"));
}

#[test]
fn abort_report_formats_any_line_and_column() {
    assert_eq!(
        abort_message("", "", 0, -1),
        "abort:  in  at line 0, column -1"
    );
    assert_eq!(
        abort_message("m", "f.ts", i32::MAX, i32::MIN),
        format!("abort: m in f.ts at line {}, column {}", i32::MAX, i32::MIN)
    );
}

#[test]
fn inputs_become_named_globals() {
    assert_eq!(input_name("amount"), "input.amount");
    assert_eq!(input_name(""), "input.");
    let inputs = vec![("amount".to_string(), 5), ("chain".to_string(), -1)];
    assert_eq!(
        mock_runner::input_linker::link(&inputs),
        vec![
            InputBinding { name: "input.amount".to_string(), value: 5 },
            InputBinding { name: "input.chain".to_string(), value: -1 },
        ]
    );
    assert_eq!(mock_runner::input_linker::link(&vec![]), vec![]);
}
