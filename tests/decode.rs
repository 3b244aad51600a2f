use toml_decoder::decoder::{decode, Decoder, MapCursor, SeqCursor};
use toml_decoder::error::{se2toml, DecodeError, DecodeErrorKind, ProtocolError, TypeTag};
use toml_decoder::shape::{Decoded, Field, KeyShape, Shape};
use toml_decoder::value::Value;

fn table(entries: Vec<(&str, Value)>) -> Value {
    Value::Table(entries.into_iter().map(|(k, v)| (k.to_string(), v)).collect())
}

fn record(fields: Vec<(&str, Shape)>) -> Shape {
    Shape::Record(
        fields
            .into_iter()
            .map(|(n, s)| Field { name: n.to_string(), shape: s })
            .collect(),
    )
}

#[test]
fn missing_required_field_is_expected_field() {
    let r = decode(table(vec![]), &record(vec![("x", Shape::Integer)]));
    assert_eq!(
        r,
        Err(DecodeError { field: Some("x".to_string()), kind: DecodeErrorKind::ExpectedField(None) })
    );
}

#[test]
fn missing_optional_field_is_absent() {
    let shape = record(vec![("x", Shape::Optional(Box::new(Shape::Integer)))]);
    let r = decode(table(vec![]), &shape);
    assert_eq!(r, Ok((Decoded::Record(vec![Decoded::Absent]), None)));
}

#[test]
fn missing_list_and_dict_fields_are_empty() {
    let shape = record(vec![
        ("l", Shape::List(Box::new(Shape::Integer))),
        ("d", Shape::Dict(Box::new(Shape::Any))),
    ]);
    let r = decode(table(vec![]), &shape);
    assert_eq!(
        r,
        Ok((Decoded::Record(vec![Decoded::List(vec![]), Decoded::Dict(vec![])]), None))
    );
}

#[test]
fn unknown_key_is_left_over() {
    let v = table(vec![("a", Value::Integer(1)), ("b", Value::Integer(2))]);
    let r = decode(v, &record(vec![("a", Shape::Integer)]));
    assert_eq!(
        r,
        Ok((
            Decoded::Record(vec![Decoded::Integer(1)]),
            Some(table(vec![("b", Value::Integer(2))]))
        ))
    );
}

#[test]
fn nested_residue_keeps_its_key_path() {
    let v = table(vec![(
        "x",
        table(vec![("y", Value::Integer(1)), ("z", Value::Integer(2))]),
    )]);
    let shape = record(vec![("x", record(vec![("y", Shape::Integer)]))]);
    let r = decode(v, &shape);
    assert_eq!(
        r,
        Ok((
            Decoded::Record(vec![Decoded::Record(vec![Decoded::Integer(1)])]),
            Some(table(vec![("x", table(vec![("z", Value::Integer(2))]))]))
        ))
    );
}

#[test]
fn subset_of_keys_leaves_the_rest_unchanged() {
    let v = table(vec![
        ("a", Value::Integer(1)),
        ("b", Value::Array(vec![Value::Boolean(true)])),
        ("c", Value::String("s".to_string())),
        ("d", Value::Float(2.5f64.to_bits())),
    ]);
    let shape = record(vec![("a", Shape::Any), ("c", Shape::Any)]);
    let r = decode(v, &shape);
    assert_eq!(
        r,
        Ok((
            Decoded::Record(vec![
                Decoded::Raw(Value::Integer(1)),
                Decoded::Raw(Value::String("s".to_string()))
            ]),
            Some(table(vec![
                ("b", Value::Array(vec![Value::Boolean(true)])),
                ("d", Value::Float(2.5f64.to_bits())),
            ]))
        ))
    );
}

#[test]
fn consuming_every_key_leaves_nothing() {
    let v = table(vec![("a", Value::Integer(1)), ("b", Value::Boolean(false))]);
    let shape = record(vec![("b", Shape::Boolean), ("a", Shape::Integer)]);
    let r = decode(v, &shape);
    assert_eq!(
        r,
        Ok((Decoded::Record(vec![Decoded::Boolean(false), Decoded::Integer(1)]), None))
    );
}

#[test]
fn sequence_finish_requires_every_element() {
    for k in 0..3usize {
        let items = vec![Value::Integer(1), Value::Integer(2), Value::Integer(3)];
        let mut c = SeqCursor::new(items);
        for i in 0..k {
            let r = c.next_element(&Shape::Integer);
            assert_eq!(r, Ok(Some(Decoded::Integer(i as i64 + 1))));
        }
        assert_eq!(c.size_hint(), (3 - k, Some(3 - k)));
        assert_eq!(
            c.end(),
            Err(DecodeError { field: None, kind: DecodeErrorKind::EndOfStream })
        );
    }
    let mut c = SeqCursor::new(vec![Value::Integer(1), Value::Integer(2), Value::Integer(3)]);
    for _ in 0..3 {
        assert!(c.next_element(&Shape::Integer).unwrap().is_some());
    }
    assert_eq!(c.next_element(&Shape::Integer), Ok(None));
    assert_eq!(c.end(), Ok(()));
}

#[test]
fn empty_sequence_finishes() {
    let c = SeqCursor::new(vec![]);
    assert_eq!(c.size_hint(), (0, Some(0)));
    assert_eq!(c.end(), Ok(()));
}

#[test]
fn list_elements_collect_their_residue() {
    let v = Value::Array(vec![
        table(vec![("a", Value::Integer(1)), ("b", Value::Integer(2))]),
        table(vec![("a", Value::Integer(3))]),
    ]);
    let shape = Shape::List(Box::new(record(vec![("a", Shape::Integer)])));
    let r = decode(v, &shape);
    assert_eq!(
        r,
        Ok((
            Decoded::List(vec![
                Decoded::Record(vec![Decoded::Integer(1)]),
                Decoded::Record(vec![Decoded::Integer(3)])
            ]),
            Some(Value::Array(vec![table(vec![("b", Value::Integer(2))])]))
        ))
    );
}

#[test]
fn shape_mismatch_is_syntax_error() {
    let r = decode(Value::String("x".to_string()), &Shape::Integer);
    assert_eq!(r, Err(DecodeError { field: None, kind: DecodeErrorKind::SyntaxError }));
    let r = decode(Value::Integer(1), &Shape::List(Box::new(Shape::Integer)));
    assert_eq!(r, Err(DecodeError { field: None, kind: DecodeErrorKind::SyntaxError }));
    let r = decode(table(vec![]), &Shape::Text);
    assert_eq!(r, Err(DecodeError { field: None, kind: DecodeErrorKind::SyntaxError }));
}

#[test]
fn field_error_names_the_field() {
    let v = table(vec![("x", Value::String("s".to_string()))]);
    let r = decode(v, &record(vec![("x", Shape::Integer)]));
    assert_eq!(
        r,
        Err(DecodeError { field: Some("x".to_string()), kind: DecodeErrorKind::SyntaxError })
    );
}

#[test]
fn innermost_field_name_is_kept() {
    let v = table(vec![("outer", table(vec![]))]);
    let shape = record(vec![("outer", record(vec![("inner", Shape::Boolean)]))]);
    let r = decode(v, &shape);
    assert_eq!(
        r,
        Err(DecodeError {
            field: Some("inner".to_string()),
            kind: DecodeErrorKind::ExpectedField(None)
        })
    );
}

#[test]
fn empty_slot_is_end_of_stream() {
    let mut d = Decoder { toml: None };
    assert_eq!(
        d.decode(&Shape::Integer),
        Err(DecodeError { field: None, kind: DecodeErrorKind::EndOfStream })
    );
    let mut d = Decoder { toml: None };
    assert_eq!(d.decode(&Shape::Optional(Box::new(Shape::Integer))), Ok(Decoded::Absent));
    let mut d = Decoder { toml: None };
    assert_eq!(
        d.decode(&Shape::List(Box::new(Shape::Integer))),
        Ok(Decoded::List(vec![]))
    );
}

#[test]
fn present_value_is_some() {
    let r = decode(Value::Integer(7), &Shape::Optional(Box::new(Shape::Integer)));
    assert_eq!(r, Ok((Decoded::Present(Box::new(Decoded::Integer(7))), None)));
}

#[test]
fn primitives_are_offered_by_kind() {
    let bits = 1.5f64.to_bits();
    assert_eq!(decode(Value::Float(bits), &Shape::Float), Ok((Decoded::Float(bits), None)));
    assert_eq!(decode(Value::Boolean(true), &Shape::Boolean), Ok((Decoded::Boolean(true), None)));
    assert_eq!(
        decode(Value::Datetime("1979-05-27T07:32:00Z".to_string()), &Shape::Text),
        Ok((Decoded::Text("1979-05-27T07:32:00Z".to_string()), None))
    );
    assert_eq!(
        decode(Value::String("hi".to_string()), &Shape::Text),
        Ok((Decoded::Text("hi".to_string()), None))
    );
}

#[test]
fn dict_takes_every_key() {
    let v = table(vec![("a", Value::Integer(1)), ("b", Value::Integer(2))]);
    let r = decode(v, &Shape::Dict(Box::new(Shape::Integer)));
    assert_eq!(
        r,
        Ok((
            Decoded::Dict(vec![
                ("a".to_string(), Decoded::Integer(1)),
                ("b".to_string(), Decoded::Integer(2))
            ]),
            None
        ))
    );
}

#[test]
fn map_cursor_diverts_unknown_keys() {
    let entries = vec![
        ("a".to_string(), Value::Integer(1)),
        ("b".to_string(), Value::Integer(2)),
        ("c".to_string(), Value::Integer(3)),
    ];
    let mut c = MapCursor::new(entries);
    let ks = KeyShape::Fields(vec!["c".to_string()]);
    assert_eq!(c.next_key(&ks), Ok(Some("c".to_string())));
    assert_eq!(c.next_value(&Shape::Integer), Ok(Decoded::Integer(3)));
    assert_eq!(c.next_key(&ks), Ok(None));
    assert_eq!(
        c.next_value(&Shape::Integer),
        Err(DecodeError { field: None, kind: DecodeErrorKind::EndOfStream })
    );
    assert_eq!(c.end(), Ok(()));
    assert_eq!(
        c.residue,
        Some(table(vec![("a", Value::Integer(1)), ("b", Value::Integer(2))]))
    );
}

#[test]
fn missing_field_probes_absence() {
    let mut c = MapCursor::new(vec![]);
    assert_eq!(
        c.missing_field(&"n".to_string(), &Shape::Text),
        Err(DecodeError { field: Some("n".to_string()), kind: DecodeErrorKind::ExpectedField(None) })
    );
    assert_eq!(
        c.missing_field(&"n".to_string(), &Shape::Optional(Box::new(Shape::Text))),
        Ok(Decoded::Absent)
    );
}

#[test]
fn key_decoding_reports_unknown_field() {
    let mut d = Decoder::new(Value::String("zz".to_string()));
    assert_eq!(
        d.visit_key(&KeyShape::Fields(vec!["a".to_string()])),
        Err(DecodeError { field: Some("zz".to_string()), kind: DecodeErrorKind::UnknownField })
    );
    let mut d = Decoder::new(Value::Integer(1));
    assert_eq!(
        d.visit_key(&KeyShape::Text),
        Err(DecodeError { field: None, kind: DecodeErrorKind::SyntaxError })
    );
}

#[test]
fn protocol_errors_map_to_diagnostics() {
    assert_eq!(
        se2toml(ProtocolError::SyntaxError, TypeTag::String),
        DecodeError { field: None, kind: DecodeErrorKind::SyntaxError }
    );
    assert_eq!(
        se2toml(ProtocolError::EndOfStreamError, TypeTag::Integer),
        DecodeError { field: None, kind: DecodeErrorKind::EndOfStream }
    );
    assert_eq!(
        se2toml(ProtocolError::MissingFieldError("f".to_string()), TypeTag::Date),
        DecodeError {
            field: Some("f".to_string()),
            kind: DecodeErrorKind::ExpectedField(Some(TypeTag::Date))
        }
    );
    assert_eq!(
        se2toml(ProtocolError::UnknownFieldError("g".to_string()), TypeTag::Bool),
        DecodeError { field: Some("g".to_string()), kind: DecodeErrorKind::UnknownField }
    );
    assert_eq!(
        DecodeError::missing_field_error("m"),
        DecodeError { field: Some("m".to_string()), kind: DecodeErrorKind::ExpectedField(None) }
    );
    assert_eq!(
        DecodeError::unknown_field_error("u"),
        DecodeError { field: Some("u".to_string()), kind: DecodeErrorKind::UnknownField }
    );
}

fn sample_table() -> Value {
    table(vec![
        ("a", Value::Integer(1)),
        ("b", table(vec![("c", Value::Boolean(true))])),
        ("d", Value::Datetime("1979-05-27".to_string())),
        ("e", Value::Array(vec![Value::Float(0.5f64.to_bits())])),
    ])
}

#[test]
fn open_shape_round_trips_a_table() {
    let (d, left) = decode(sample_table(), &Shape::Dict(Box::new(Shape::Any))).unwrap();
    assert_eq!(left, None);
    assert_eq!(d.into_table(), Some(sample_table()));
    let (d, left) = decode(sample_table(), &Shape::Any).unwrap();
    assert_eq!(left, None);
    assert_eq!(d.into_table(), Some(sample_table()));
}

#[test]
fn into_table_refuses_what_is_not_a_table() {
    assert_eq!(Decoded::Integer(1).into_table(), None);
    assert_eq!(Decoded::Raw(Value::Integer(1)).into_table(), None);
    let d = Decoded::Dict(vec![("a".to_string(), Decoded::Integer(1))]);
    assert_eq!(d.into_table(), None);
    assert_eq!(Decoded::Dict(vec![]).into_table(), Some(Value::Table(vec![])));
}

#[test]
fn repeated_unknown_key_is_filed_once() {
    let v = table(vec![
        ("a", Value::Integer(1)),
        ("k", Value::Integer(5)),
        ("a", Value::Integer(2)),
    ]);
    let mut d = Decoder::new(v);
    let r = d.decode(&record(vec![("k", Shape::Integer)]));
    assert_eq!(r, Ok(Decoded::Record(vec![Decoded::Integer(5)])));
    assert_eq!(d.toml, Some(table(vec![("a", Value::Integer(2))])));
}

#[test]
fn failed_value_leaves_residue_and_key() {
    let entries = vec![
        ("a".to_string(), Value::Integer(1)),
        ("b".to_string(), Value::String("x".to_string())),
    ];
    let mut c = MapCursor::new(entries);
    let ks = KeyShape::Fields(vec!["b".to_string()]);
    assert_eq!(c.next_key(&ks), Ok(Some("b".to_string())));
    assert_eq!(
        c.next_value(&Shape::Integer),
        Err(DecodeError { field: Some("b".to_string()), kind: DecodeErrorKind::SyntaxError })
    );
    assert_eq!(c.key, Some("b".to_string()));
    assert_eq!(c.residue, Some(table(vec![("a", Value::Integer(1))])));
}

#[test]
fn failed_element_leaves_residue() {
    let mut c = SeqCursor::new(vec![
        table(vec![("a", Value::Integer(1)), ("b", Value::Integer(2))]),
        Value::Boolean(true),
    ]);
    let shape = record(vec![("a", Shape::Integer)]);
    assert!(c.next_element(&shape).unwrap().is_some());
    assert_eq!(
        c.next_element(&shape),
        Err(DecodeError { field: None, kind: DecodeErrorKind::SyntaxError })
    );
    assert_eq!(c.residue, Some(Value::Array(vec![table(vec![("b", Value::Integer(2))])])));
}

#[test]
fn unit_accepts_only_absence() {
    let r = decode(table(vec![]), &record(vec![("u", Shape::Unit)]));
    assert_eq!(r, Ok((Decoded::Record(vec![Decoded::Unit]), None)));
    let r = decode(Value::Boolean(true), &Shape::Unit);
    assert_eq!(r, Err(DecodeError { field: None, kind: DecodeErrorKind::SyntaxError }));
    let mut d = Decoder { toml: None };
    assert_eq!(
        d.decode(&Shape::Unit),
        Err(DecodeError { field: None, kind: DecodeErrorKind::EndOfStream })
    );
}

#[test]
fn held_value_survives_unknown_keys() {
    let entries = vec![
        ("a".to_string(), Value::Integer(1)),
        ("b".to_string(), Value::Integer(2)),
        ("c".to_string(), table(vec![("x", Value::Integer(3)), ("y", Value::Integer(4))])),
    ];
    let mut c = MapCursor::new(entries);
    assert_eq!(c.next_key(&KeyShape::Fields(vec!["a".to_string()])), Ok(Some("a".to_string())));
    let ks = KeyShape::Fields(vec!["c".to_string()]);
    assert_eq!(c.next_key(&ks), Ok(Some("c".to_string())));
    assert_eq!(c.next_key(&KeyShape::Fields(vec![])), Ok(None));
    assert_eq!(c.key, Some("c".to_string()));
    let shape = record(vec![("x", Shape::Integer)]);
    assert_eq!(c.next_value(&shape), Ok(Decoded::Record(vec![Decoded::Integer(3)])));
    assert_eq!(c.key, None);
    assert_eq!(
        c.residue,
        Some(table(vec![("b", Value::Integer(2)), ("c", table(vec![("y", Value::Integer(4))]))]))
    );
}
