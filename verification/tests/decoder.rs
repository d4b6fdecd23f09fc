use mock_runner::csv_deserializer::{
    classify_token, from_str, split, DecodeError, FieldKind, FieldSpec, FieldValue,
    GenericDeserializer, Shape, StructSeqAccess,
};

fn text(s: &str) -> FieldValue {
    FieldValue::Text(s.to_string())
}

fn shape_of(kinds: Vec<FieldKind>) -> Shape {
    let mut fields = Vec::new();
    for (i, kind) in kinds.into_iter().enumerate() {
        fields.push(FieldSpec::new(&format!("f{}", i), kind));
    }
    Shape::new(fields)
}

fn optional_text() -> FieldKind {
    FieldKind::optional(FieldKind::Text)
}

#[test]
fn record_of_text_integer_boolean() {
    let shape = shape_of(vec![FieldKind::Text, FieldKind::Integer, FieldKind::Boolean]);
    assert_eq!(
        from_str("alice,1,true", &shape),
        Ok(vec![text("alice"), FieldValue::Integer(1), FieldValue::Boolean(true)])
    );
}

#[test]
fn optional_text_is_absent_only_when_empty() {
    assert_eq!(
        GenericDeserializer::new("").deserialize(&optional_text()),
        Some(FieldValue::Absent)
    );
    assert_eq!(
        GenericDeserializer::new("x").deserialize(&optional_text()),
        Some(text("x"))
    );
    assert_eq!(
        GenericDeserializer::new("").deserialize_option(&FieldKind::Text),
        Some(FieldValue::Absent)
    );
    assert_eq!(
        GenericDeserializer::new("x").deserialize_option(&FieldKind::Text),
        Some(text("x"))
    );
}

#[test]
fn big_integer_wrapper_gives_its_digits_as_text() {
    let de = GenericDeserializer::new("BigInt(123456789012345678901234567890)");
    assert_eq!(
        de.deserialize(&FieldKind::Text),
        Some(text("123456789012345678901234567890"))
    );
    assert_eq!(de.deserialize_string(), "123456789012345678901234567890");
}

#[test]
fn two_tokens_against_three_fields_is_a_missing_field() {
    let shape = shape_of(vec![FieldKind::Text, FieldKind::Integer, FieldKind::Boolean]);
    assert_eq!(
        from_str("alice,1", &shape),
        Err(DecodeError::MissingField { index: 2 })
    );
}

#[test]
fn requested_kind_governs_a_numeric_token() {
    let de = GenericDeserializer::new("42");
    assert_eq!(de.deserialize(&FieldKind::Text), Some(text("42")));
    assert_eq!(de.deserialize(&FieldKind::Any), Some(FieldValue::Integer(42)));
    assert_eq!(de.deserialize_any(), FieldValue::Integer(42));
    assert_eq!(de.deserialize_string(), "42");
}

#[test]
fn classification_tries_integer_then_boolean_then_text() {
    assert_eq!(classify_token("42"), FieldValue::Integer(42));
    assert_eq!(classify_token("-7"), FieldValue::Integer(-7));
    assert_eq!(classify_token("+7"), FieldValue::Integer(7));
    assert_eq!(classify_token("true"), FieldValue::Boolean(true));
    assert_eq!(classify_token("false"), FieldValue::Boolean(false));
    assert_eq!(classify_token("True"), text("True"));
    assert_eq!(classify_token("TRUE"), text("TRUE"));
    assert_eq!(classify_token("1.5"), text("1.5"));
    assert_eq!(classify_token(""), text(""));
    assert_eq!(classify_token(" 42"), text(" 42"));
    assert_eq!(classify_token("0x10"), text("0x10"));
    assert_eq!(classify_token("alice"), text("alice"));
}

#[test]
fn classification_keeps_a_big_integer_wrapper() {
    assert_eq!(classify_token("BigInt(12)"), text("BigInt(12)"));
    assert_eq!(
        GenericDeserializer::new("BigInt(12)").deserialize(&FieldKind::Any),
        Some(text("BigInt(12)"))
    );
}

#[test]
fn integers_at_the_edges_of_the_range() {
    assert_eq!(
        classify_token("9223372036854775807"),
        FieldValue::Integer(i64::MAX)
    );
    assert_eq!(
        classify_token("-9223372036854775808"),
        FieldValue::Integer(i64::MIN)
    );
    assert_eq!(
        classify_token("9223372036854775808"),
        text("9223372036854775808")
    );
    assert_eq!(
        classify_token("-9223372036854775809"),
        text("-9223372036854775809")
    );
    assert_eq!(
        classify_token("000000000000000000000000000000012"),
        FieldValue::Integer(12)
    );
}

#[test]
fn integer_kind_rejects_what_is_no_integer() {
    assert_eq!(GenericDeserializer::new("abc").deserialize(&FieldKind::Integer), None);
    assert_eq!(GenericDeserializer::new("true").deserialize(&FieldKind::Integer), None);
    assert_eq!(GenericDeserializer::new("").deserialize(&FieldKind::Integer), None);
    assert_eq!(
        GenericDeserializer::new("-3").deserialize(&FieldKind::Integer),
        Some(FieldValue::Integer(-3))
    );
}

#[test]
fn unsigned_kind_rejects_negative_and_oversized_numbers() {
    assert_eq!(
        GenericDeserializer::new("1").deserialize(&FieldKind::Unsigned),
        Some(FieldValue::Integer(1))
    );
    assert_eq!(
        GenericDeserializer::new("0").deserialize(&FieldKind::Unsigned),
        Some(FieldValue::Integer(0))
    );
    assert_eq!(GenericDeserializer::new("-1").deserialize(&FieldKind::Unsigned), None);
    assert_eq!(
        GenericDeserializer::new("9223372036854775808").deserialize(&FieldKind::Unsigned),
        None
    );
    assert_eq!(GenericDeserializer::new("x").deserialize(&FieldKind::Unsigned), None);
}

#[test]
fn boolean_kind_takes_exactly_true_and_false() {
    assert_eq!(
        GenericDeserializer::new("true").deserialize(&FieldKind::Boolean),
        Some(FieldValue::Boolean(true))
    );
    assert_eq!(
        GenericDeserializer::new("false").deserialize(&FieldKind::Boolean),
        Some(FieldValue::Boolean(false))
    );
    assert_eq!(GenericDeserializer::new("1").deserialize(&FieldKind::Boolean), None);
    assert_eq!(GenericDeserializer::new("0").deserialize(&FieldKind::Boolean), None);
    assert_eq!(GenericDeserializer::new("TRUE").deserialize(&FieldKind::Boolean), None);
    assert_eq!(GenericDeserializer::new("yes").deserialize(&FieldKind::Boolean), None);
}

#[test]
fn text_kind_strips_only_a_complete_wrapper() {
    let as_text = |s: &str| GenericDeserializer::new(s).deserialize_string();
    assert_eq!(as_text("BigInt(5)"), "5");
    assert_eq!(as_text("BigInt()"), "");
    assert_eq!(as_text("BigInt(abc)"), "abc");
    assert_eq!(as_text("BigInt(1))"), "1)");
    assert_eq!(as_text("BigInt("), "BigInt(");
    assert_eq!(as_text("BigInt(5"), "BigInt(5");
    assert_eq!(as_text("bigint(5)"), "bigint(5)");
    assert_eq!(as_text(" BigInt(5)"), " BigInt(5)");
    assert_eq!(as_text("BigInt(5) "), "BigInt(5) ");
    assert_eq!(as_text("true"), "true");
    assert_eq!(as_text(""), "");
    assert_eq!(as_text("héllo"), "héllo");
    assert_eq!(as_text("BigInt(é)"), "é");
}

#[test]
fn optional_of_a_typed_field_still_checks_the_type() {
    let kind = FieldKind::optional(FieldKind::Integer);
    assert_eq!(
        GenericDeserializer::new("").deserialize(&kind),
        Some(FieldValue::Absent)
    );
    assert_eq!(
        GenericDeserializer::new("5").deserialize(&kind),
        Some(FieldValue::Integer(5))
    );
    assert_eq!(GenericDeserializer::new("x").deserialize(&kind), None);
    let nested = FieldKind::optional(FieldKind::optional(FieldKind::Text));
    assert_eq!(
        GenericDeserializer::new("").deserialize(&nested),
        Some(FieldValue::Absent)
    );
    assert_eq!(GenericDeserializer::new("x").deserialize(&nested), Some(text("x")));
}

#[test]
fn split_keeps_empty_tokens() {
    assert_eq!(split(""), vec![""]);
    assert_eq!(split("a"), vec!["a"]);
    assert_eq!(split(","), vec!["", ""]);
    assert_eq!(split("a,b"), vec!["a", "b"]);
    assert_eq!(split("a,,b"), vec!["a", "", "b"]);
    assert_eq!(split(",a,"), vec!["", "a", ""]);
    assert_eq!(split(",,,"), vec!["", "", "", ""]);
    assert_eq!(split("é,ü,,日本"), vec!["é", "ü", "", "日本"]);
}

#[test]
fn split_agrees_with_the_standard_splitter() {
    for raw in ["", ",", "a,b,c", "alice,1,true", ",,x,,", "no commas", "é,ü", "a, b ,c"] {
        let expected: Vec<&str> = raw.split(',').collect();
        assert_eq!(split(raw), expected);
    }
}

#[test]
fn cursor_hands_out_each_token_once_and_then_stops() {
    let mut seq = StructSeqAccess::new(split("7,x"));
    assert_eq!(
        seq.next_element_seed(&FieldKind::Integer),
        Ok(Some(FieldValue::Integer(7)))
    );
    assert_eq!(seq.next_element_seed(&FieldKind::Text), Ok(Some(text("x"))));
    assert_eq!(seq.next_element_seed(&FieldKind::Text), Ok(None));
    assert_eq!(seq.next_element_seed(&FieldKind::Any), Ok(None));
}

#[test]
fn cursor_reports_the_position_of_a_mismatch_and_moves_on() {
    let mut seq = StructSeqAccess::new(split("a,b,3"));
    assert_eq!(seq.next_element_seed(&FieldKind::Text), Ok(Some(text("a"))));
    assert_eq!(
        seq.next_element_seed(&FieldKind::Integer),
        Err(DecodeError::TypeMismatch { index: 1 })
    );
    assert_eq!(
        seq.next_element_seed(&FieldKind::Integer),
        Ok(Some(FieldValue::Integer(3)))
    );
}

#[test]
fn trailing_tokens_are_ignored() {
    let shape = shape_of(vec![FieldKind::Text, FieldKind::Integer]);
    assert_eq!(
        from_str("a,1,extra,tokens", &shape),
        Ok(vec![text("a"), FieldValue::Integer(1)])
    );
    assert_eq!(
        from_str("a,1,", &shape),
        Ok(vec![text("a"), FieldValue::Integer(1)])
    );
}

#[test]
fn first_failing_field_decides_the_error() {
    let shape = shape_of(vec![FieldKind::Integer, FieldKind::Boolean, FieldKind::Text]);
    assert_eq!(from_str("x,1", &shape), Err(DecodeError::TypeMismatch { index: 0 }));
    assert_eq!(from_str("1,x", &shape), Err(DecodeError::TypeMismatch { index: 1 }));
    assert_eq!(from_str("1,true", &shape), Err(DecodeError::MissingField { index: 2 }));
    assert_eq!(from_str("1", &shape), Err(DecodeError::MissingField { index: 1 }));
    assert_eq!(from_str("", &shape), Err(DecodeError::TypeMismatch { index: 0 }));
}

#[test]
fn empty_shape_accepts_any_record() {
    let shape = shape_of(vec![]);
    assert_eq!(from_str("", &shape), Ok(vec![]));
    assert_eq!(from_str("a,b", &shape), Ok(vec![]));
}

#[test]
fn empty_record_is_one_empty_token() {
    assert_eq!(from_str("", &shape_of(vec![FieldKind::Text])), Ok(vec![text("")]));
    assert_eq!(
        from_str("", &shape_of(vec![optional_text()])),
        Ok(vec![FieldValue::Absent])
    );
    assert_eq!(
        from_str("", &shape_of(vec![FieldKind::Text, FieldKind::Text])),
        Err(DecodeError::MissingField { index: 1 })
    );
}

#[test]
fn deserialize_struct_is_what_from_str_does() {
    let shape = shape_of(vec![FieldKind::Any, FieldKind::Any, optional_text()]);
    let raw = "false,BigInt(1),";
    assert_eq!(
        GenericDeserializer::new(raw).deserialize_struct(&shape),
        from_str(raw, &shape)
    );
    assert_eq!(
        from_str(raw, &shape),
        Ok(vec![FieldValue::Boolean(false), text("BigInt(1)"), FieldValue::Absent])
    );
}

#[test]
fn field_spec_keeps_name_and_kind() {
    let field = FieldSpec::new("settler", FieldKind::Text);
    assert_eq!(field.name, "settler");
    assert_eq!(field.kind, FieldKind::Text);
    assert_eq!(
        FieldKind::optional(FieldKind::Any),
        FieldKind::Optional(Box::new(FieldKind::Any))
    );
}

#[test]
fn tokens_joined_with_commas_are_the_record_again() {
    for raw in ["", ",", "a,b,c", ",,x,,", "no commas", "é,ü,", "alice,1,true"] {
        assert_eq!(split(raw).join(","), raw);
        assert_eq!(split(raw).len(), raw.matches(',').count() + 1);
        assert!(split(raw).iter().all(|token| !token.contains(',')));
    }
}

#[test]
fn comma_free_tokens_survive_join_and_split() {
    let cases: Vec<Vec<&str>> = vec![
        vec![""],
        vec!["a"],
        vec!["", ""],
        vec!["a", "", "b"],
        vec!["BigInt(1)", "true", "", "日本"],
    ];
    for tokens in cases {
        assert_eq!(split(&tokens.join(",")), tokens);
    }
}

#[test]
fn appended_tokens_do_not_change_the_outcome() {
    let shape = shape_of(vec![FieldKind::Integer, FieldKind::Boolean]);
    for raw in ["1,true", "x,true", "1,maybe", "1,true,more"] {
        for extra in ["", "z", "a,b", ","] {
            let longer = format!("{},{}", raw, extra);
            assert_eq!(from_str(&longer, &shape), from_str(raw, &shape));
        }
    }
}

#[test]
fn no_token_is_both_integer_and_boolean() {
    for token in ["true", "false", "0", "1", "-1", "+1", "", "t", "12"] {
        let as_integer = GenericDeserializer::new(token).deserialize(&FieldKind::Integer);
        let as_boolean = GenericDeserializer::new(token).deserialize(&FieldKind::Boolean);
        assert!(as_integer.is_none() || as_boolean.is_none());
    }
}
