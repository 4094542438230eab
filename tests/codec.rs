use wirecodec::types::{varint, varlong, vec_sized, vec_unsized};
use wirecodec::{from_bytes, to_bytes, Deserializer, Error, Serializer, Shape, Value, Variant};

fn varint_record() -> Shape {
    Shape::Tuple(vec![Shape::VarInt])
}

fn varlong_record() -> Shape {
    Shape::Tuple(vec![Shape::VarLong])
}

/// A record with one field: a union of a unit variant 0, a variant 1 that
/// holds a string, and a unit variant 2.
fn container() -> Shape {
    Shape::Tuple(vec![Shape::Union(vec![
        Variant { discriminant: 0, fields: vec![] },
        Variant { discriminant: 1, fields: vec![Shape::Text] },
        Variant { discriminant: 2, fields: vec![] },
    ])])
}

fn text(s: &str) -> Value {
    Value::Text(s.to_string())
}

#[test]
fn varint_enum() {
    let tests: [&[u8]; 3] = [
        &[0x00],
        &[0x01, 0x4, 'T' as u8, 'E' as u8, 'S' as u8, 'T' as u8],
        &[0x02],
    ];
    let expected = [
        Value::Tuple(vec![Value::Union(0, vec![])]),
        Value::Tuple(vec![Value::Union(1, vec![text("TEST")])]),
        Value::Tuple(vec![Value::Union(2, vec![])]),
    ];

    for (test, want) in tests.iter().zip(expected.iter()) {
        let deserialized = from_bytes(test, &container()).unwrap();
        assert_eq!(&deserialized, want);

        let serialized = to_bytes(&deserialized, &container()).unwrap();
        assert_eq!(test.to_vec(), serialized);
    }
}

#[test]
fn varint() {
    let tests: [(i32, &[u8]); 10] = [
        (0, &[0x00]),
        (1, &[0x01]),
        (2, &[0x02]),
        (127, &[0x7f]),
        (128, &[0x80, 0x01]),
        (255, &[0xff, 0x01]),
        (2097151, &[0xff, 0xff, 0x7f]),
        (2147483647, &[0xff, 0xff, 0xff, 0xff, 0x07]),
        (-1, &[0xff, 0xff, 0xff, 0xff, 0x0f]),
        (-2147483648, &[0x80, 0x80, 0x80, 0x80, 0x08]),
    ];

    for (goal, bytes) in &tests {
        let deserialized = from_bytes(bytes, &varint_record()).unwrap();
        assert_eq!(Value::Tuple(vec![Value::I32(*goal)]), deserialized);

        let serialized = to_bytes(&Value::Tuple(vec![Value::I32(*goal)]), &varint_record()).unwrap();
        assert_eq!(bytes.to_vec(), serialized.as_slice());
    }
}

#[test]
fn varlong() {
    let tests: [(i64, &[u8]); 11] = [
        (0, &[0x00]),
        (1, &[0x01]),
        (2, &[0x02]),
        (127, &[0x7f]),
        (128, &[0x80, 0x01]),
        (255, &[0xff, 0x01]),
        (2147483647, &[0xff, 0xff, 0xff, 0xff, 0x07]),
        (
            9223372036854775807,
            &[0xff, 0xff, 0xff, 0xff, 0xff, 0xff, 0xff, 0xff, 0x7f],
        ),
        (
            -1,
            &[0xff, 0xff, 0xff, 0xff, 0xff, 0xff, 0xff, 0xff, 0xff, 0x01],
        ),
        (
            -2147483648,
            &[0x80, 0x80, 0x80, 0x80, 0xf8, 0xff, 0xff, 0xff, 0xff, 0x01],
        ),
        (
            -9223372036854775808,
            &[0x80, 0x80, 0x80, 0x80, 0x80, 0x80, 0x80, 0x80, 0x80, 0x01],
        ),
    ];

    for (goal, bytes) in &tests {
        let deserialized = from_bytes(bytes, &varlong_record()).unwrap();
        assert_eq!(Value::Tuple(vec![Value::I64(*goal)]), deserialized);

        let serialized = to_bytes(&Value::Tuple(vec![Value::I64(*goal)]), &varlong_record()).unwrap();
        assert_eq!(bytes.to_vec(), serialized.as_slice());
    }
}

#[test]
fn primitives_round_trip() {
    let cases: Vec<(Value, Shape)> = vec![
        (Value::Bool(true), Shape::Bool),
        (Value::Bool(false), Shape::Bool),
        (Value::U8(200), Shape::U8),
        (Value::I8(-128), Shape::I8),
        (Value::U16(0xbeef), Shape::U16),
        (Value::I16(-2), Shape::I16),
        (Value::U32(0xdead_beef), Shape::U32),
        (Value::I32(i32::MIN), Shape::I32),
        (Value::U64(u64::MAX), Shape::U64),
        (Value::I64(-5), Shape::I64),
        (Value::Char('z'), Shape::Char),
        (Value::Char('\u{e9}'), Shape::Char),
        (Value::I32(-300), Shape::VarInt),
        (Value::I64(i64::MIN), Shape::VarLong),
        (text(""), Shape::Text),
        (text("h\u{e9}llo \u{1f600}"), Shape::Text),
    ];
    for (value, shape) in &cases {
        let bytes = to_bytes(value, shape).unwrap();
        let back = from_bytes(&bytes, shape).unwrap();
        assert_eq!(&back, value);
    }
}

#[test]
fn fixed_width_big_endian() {
    assert_eq!(to_bytes(&Value::U16(0x0102), &Shape::U16).unwrap(), vec![0x01, 0x02]);
    assert_eq!(to_bytes(&Value::I16(-2), &Shape::I16).unwrap(), vec![0xff, 0xfe]);
    assert_eq!(
        to_bytes(&Value::U32(0x0102_0304), &Shape::U32).unwrap(),
        vec![0x01, 0x02, 0x03, 0x04]
    );
    assert_eq!(
        to_bytes(&Value::I64(-1), &Shape::I64).unwrap(),
        vec![0xff; 8]
    );
    assert_eq!(to_bytes(&Value::I8(-1), &Shape::I8).unwrap(), vec![0xff]);
    assert_eq!(to_bytes(&Value::Bool(true), &Shape::Bool).unwrap(), vec![0x01]);
    assert_eq!(from_bytes(&[0x80, 0x00], &Shape::I16).unwrap(), Value::I16(-32768));
}

#[test]
fn varint_boundary_vectors() {
    assert_eq!(varint::to_bytes(0), vec![0x00]);
    assert_eq!(varint::to_bytes(127), vec![0x7f]);
    assert_eq!(varint::to_bytes(128), vec![0x80, 0x01]);
    assert_eq!(varint::to_bytes(2147483647), vec![0xff, 0xff, 0xff, 0xff, 0x07]);
    assert_eq!(varint::to_bytes(-1), vec![0xff, 0xff, 0xff, 0xff, 0x0f]);
    assert_eq!(varint::to_bytes(-2147483648), vec![0x80, 0x80, 0x80, 0x80, 0x08]);
}

#[test]
fn varlong_boundary_vectors() {
    let mut s = Serializer::new();
    varlong::serialize(&9223372036854775807, &mut s).unwrap();
    assert_eq!(
        s.into_bytes(),
        vec![0xff, 0xff, 0xff, 0xff, 0xff, 0xff, 0xff, 0xff, 0x7f]
    );
    let mut s = Serializer::new();
    varlong::serialize(&-9223372036854775808, &mut s).unwrap();
    assert_eq!(
        s.into_bytes(),
        vec![0x80, 0x80, 0x80, 0x80, 0x80, 0x80, 0x80, 0x80, 0x80, 0x01]
    );
}

#[test]
fn varint_minimal_encoding() {
    for x in [0i32, 1, 127, 128, 300, 16383, 16384, 2097151, 2097152, i32::MAX, -1, -300, i32::MIN] {
        let b = varint::to_bytes(x);
        assert!(*b.last().unwrap() < 0x80);
        for byte in &b[..b.len() - 1] {
            assert!(*byte >= 0x80);
        }
        if b.len() > 1 {
            assert_ne!(*b.last().unwrap(), 0);
        }
        if x < 0 {
            assert_eq!(b.len(), 5);
        }
        assert_eq!(from_bytes(&b, &Shape::VarInt).unwrap(), Value::I32(x));
    }
}

#[test]
fn varint_over_cap_is_invalid() {
    assert_eq!(
        from_bytes(&[0xff, 0xff, 0xff, 0xff, 0xff, 0x01], &Shape::VarInt),
        Err(Error::InvalidData)
    );
    assert_eq!(
        from_bytes(&[0xff; 11], &Shape::VarLong),
        Err(Error::InvalidData)
    );
}

#[test]
fn unit_variant_is_its_discriminant() {
    let shape = container();
    let bytes = to_bytes(&Value::Tuple(vec![Value::Union(2, vec![])]), &shape).unwrap();
    assert_eq!(bytes, vec![0x02]);

    let mut s = Serializer::new();
    s.serialize_unit_variant(300).unwrap();
    assert_eq!(s.into_bytes(), vec![0xac, 0x02]);
}

#[test]
fn single_field_variant_with_text() {
    let shape = container();
    let bytes = to_bytes(&Value::Tuple(vec![Value::Union(1, vec![text("TEST")])]), &shape).unwrap();
    assert_eq!(bytes, vec![0x01, 0x04, b'T', b'E', b'S', b'T']);
}

#[test]
fn unknown_discriminant_is_invalid() {
    assert_eq!(from_bytes(&[0x05], &container()), Err(Error::InvalidData));
    assert_eq!(
        to_bytes(&Value::Tuple(vec![Value::Union(5, vec![])]), &container()),
        Err(Error::InvalidData)
    );
}

#[test]
fn discriminants_need_not_be_ordinals() {
    let shape = Shape::Union(vec![
        Variant { discriminant: 1, fields: vec![Shape::I32, Shape::Text, Shape::I32] },
        Variant { discriminant: 0, fields: vec![Shape::I32, Shape::Text] },
    ]);
    let v = Value::Union(0, vec![Value::I32(7), text("hm")]);
    let bytes = to_bytes(&v, &shape).unwrap();
    assert_eq!(bytes, vec![0x00, 0, 0, 0, 7, 0x02, b'h', b'm']);
    assert_eq!(from_bytes(&bytes, &shape).unwrap(), v);
}

#[test]
fn sized_sequence_of_three_round_trips() {
    let shapes = vec![
        Shape::U16,
        Shape::Tuple(vec![Shape::I32, Shape::Text]),
        Shape::Sized(Box::new(Shape::VarInt)),
    ];
    let values = vec![
        vec![Value::U16(1), Value::U16(2), Value::U16(3)],
        vec![
            Value::Tuple(vec![Value::I32(-1), text("a")]),
            Value::Tuple(vec![Value::I32(0), text("")]),
            Value::Tuple(vec![Value::I32(5), text("ccc")]),
        ],
        vec![
            Value::List(vec![]),
            Value::List(vec![Value::I32(1)]),
            Value::List(vec![Value::I32(-1), Value::I32(128)]),
        ],
    ];
    for (elem, items) in shapes.into_iter().zip(values.into_iter()) {
        let shape = Shape::Sized(Box::new(elem));
        let value = Value::List(items);
        let bytes = to_bytes(&value, &shape).unwrap();
        assert_eq!(bytes[0], 0x03);
        let back = from_bytes(&bytes, &shape).unwrap();
        match &back {
            Value::List(vs) => assert_eq!(vs.len(), 3),
            _ => panic!("not a list"),
        }
        assert_eq!(back, value);
    }
}

#[test]
fn sized_sequence_wire_form() {
    let mut s = Serializer::new();
    vec_sized::serialize(&vec![Value::U8(9), Value::U8(8)], &Shape::U8, &mut s).unwrap();
    let bytes = s.into_bytes();
    assert_eq!(bytes, vec![0x02, 9, 8]);
    let mut d = Deserializer::new(bytes);
    assert_eq!(
        vec_sized::deserialize(&mut d, &Shape::U8).unwrap(),
        vec![Value::U8(9), Value::U8(8)]
    );
    assert!(d.is_empty());
}

#[test]
fn negative_count_is_invalid() {
    let shape = Shape::Sized(Box::new(Shape::U8));
    assert_eq!(from_bytes(&[0xff, 0xff, 0xff, 0xff, 0x0f], &shape), Err(Error::InvalidData));
    assert_eq!(from_bytes(&[0xff, 0xff, 0xff, 0xff, 0x0f], &Shape::Text), Err(Error::InvalidData));
}

#[test]
fn unsized_sequence_runs_to_the_end() {
    let shape = Shape::Unsized(Box::new(Shape::U16));
    let value = Value::List(vec![Value::U16(1), Value::U16(0x0203)]);
    let bytes = to_bytes(&value, &shape).unwrap();
    assert_eq!(bytes, vec![0x00, 0x01, 0x02, 0x03]);
    assert_eq!(from_bytes(&bytes, &shape).unwrap(), value);
    assert_eq!(from_bytes(&[], &shape).unwrap(), Value::List(vec![]));

    let mut s = Serializer::new();
    vec_unsized::serialize(&vec![Value::U8(4), Value::U8(5)], &Shape::U8, &mut s).unwrap();
    let mut d = Deserializer::new(s.into_bytes());
    assert_eq!(
        vec_unsized::deserialize(&mut d, &Shape::U8).unwrap(),
        vec![Value::U8(4), Value::U8(5)]
    );
}

#[test]
fn unsized_sequence_cut_inside_an_element() {
    let shape = Shape::Unsized(Box::new(Shape::U16));
    assert_eq!(from_bytes(&[0x00, 0x01, 0x02], &shape), Err(Error::Eof));
}

#[test]
fn unsized_sequence_of_empty_elements() {
    let shape = Shape::Unsized(Box::new(Shape::Tuple(vec![])));
    assert_eq!(from_bytes(&[0x01], &shape), Err(Error::InvalidData));
    assert_eq!(from_bytes(&[], &shape).unwrap(), Value::List(vec![]));
}

#[test]
fn truncated_input_ends_early() {
    let bytes = to_bytes(&Value::U32(0x0102_0304), &Shape::U32).unwrap();
    assert_eq!(from_bytes(&bytes[..3], &Shape::U32), Err(Error::Eof));
    let bytes = to_bytes(&Value::I64(9), &Shape::I64).unwrap();
    assert_eq!(from_bytes(&bytes[..7], &Shape::I64), Err(Error::Eof));
    assert_eq!(from_bytes(&[0x80], &Shape::VarInt), Err(Error::Eof));
    assert_eq!(from_bytes(&[0xff, 0xff], &Shape::VarLong), Err(Error::Eof));
    assert_eq!(from_bytes(&[0x04, b'T', b'E', b'S'], &Shape::Text), Err(Error::Eof));
    assert_eq!(from_bytes(&[], &Shape::Bool), Err(Error::Eof));
    assert_eq!(from_bytes(&[0x03, 0x01], &Shape::Sized(Box::new(Shape::U8))), Err(Error::Eof));
}

#[test]
fn bad_boolean_byte_is_invalid() {
    assert_eq!(from_bytes(&[0x02], &Shape::Bool), Err(Error::InvalidData));
    assert_eq!(from_bytes(&[0x01], &Shape::Bool).unwrap(), Value::Bool(true));
    assert_eq!(from_bytes(&[0x00], &Shape::Bool).unwrap(), Value::Bool(false));
}

#[test]
fn invalid_utf8_is_replaced() {
    assert_eq!(
        from_bytes(&[0x03, 0xff, b'A', b'B'], &Shape::Text).unwrap(),
        text("\u{fffd}AB")
    );
    assert_eq!(from_bytes(&[0x02, b'o', b'k'], &Shape::Text).unwrap(), text("ok"));
}

#[test]
fn unsupported_shapes_fail_fast() {
    for shape in [
        Shape::Optional(Box::new(Shape::U8)),
        Shape::KeyValue(Box::new(Shape::U8), Box::new(Shape::U8)),
        Shape::Any,
    ] {
        assert_eq!(from_bytes(&[0x00, 0x00], &shape), Err(Error::Unimplemented));
        assert_eq!(to_bytes(&Value::U8(0), &shape), Err(Error::Unimplemented));
    }
}

#[test]
fn value_of_another_kind_is_invalid() {
    assert_eq!(to_bytes(&Value::U8(1), &Shape::U16), Err(Error::InvalidData));
    assert_eq!(
        to_bytes(&Value::Tuple(vec![Value::U8(1)]), &Shape::Tuple(vec![Shape::U8, Shape::U8])),
        Err(Error::InvalidData)
    );
}

#[test]
fn wide_char_is_unsupported() {
    assert_eq!(to_bytes(&Value::Char('\u{263a}'), &Shape::Char), Err(Error::Unimplemented));
    assert_eq!(to_bytes(&Value::Char('A'), &Shape::Char).unwrap(), vec![0x41]);
    assert_eq!(from_bytes(&[0xe9], &Shape::Char).unwrap(), Value::Char('\u{e9}'));
}

#[test]
fn record_is_plain_concatenation() {
    let shape = Shape::Tuple(vec![Shape::Bool, Shape::VarInt, Shape::Text]);
    let value = Value::Tuple(vec![Value::Bool(true), Value::I32(300), text("hi")]);
    let bytes = to_bytes(&value, &shape).unwrap();
    assert_eq!(bytes, vec![0x01, 0xac, 0x02, 0x02, b'h', b'i']);
    assert_eq!(from_bytes(&bytes, &shape).unwrap(), value);
}

#[test]
fn trailing_bytes_are_left_unread() {
    let mut d = Deserializer::new(vec![0x07, 0x09]);
    assert_eq!(d.deserialize_value(&Shape::U8).unwrap(), Value::U8(7));
    assert_eq!(d.remaining(), 1);
    assert_eq!(from_bytes(&[0x07, 0x09], &Shape::U8).unwrap(), Value::U8(7));
}

#[test]
fn read_byte_then_end() {
    let mut d = Deserializer::new(vec![0x2a]);
    assert_eq!(d.read_byte(), Ok(0x2a));
    assert_eq!(d.read_byte(), Err(Error::Eof));
}

#[test]
fn varint_visitor_reads_one_varint() {
    let mut d = Deserializer::new(vec![0xac, 0x02, 0x05]);
    assert_eq!(varint::VarIntVisitor.visit_seq(&mut d), Ok(300));
    assert_eq!(varint::deserialize(&mut d), Ok(5));
    assert_eq!(varint::deserialize(&mut d), Err(Error::Eof));
    let mut d = Deserializer::new(vec![0xff, 0xff, 0xff, 0xff, 0xff, 0xff, 0xff, 0xff, 0xff, 0x01]);
    assert_eq!(varlong::deserialize(&mut d), Ok(-1));
}

#[test]
fn serializer_methods() {
    let mut s = Serializer::new();
    let mut out = Serializer::new();
    s.serialize_i16(-2).unwrap();
    s.serialize_str("ab").unwrap();
    s.serialize_char('x').unwrap();
    varint::serialize(&-1, &mut s).unwrap();
    out.serialize_bytes(&[1, 2]).unwrap();
    assert_eq!(s.into_bytes(), vec![0xff, 0xfe, 0x02, b'a', b'b', b'x', 0xff, 0xff, 0xff, 0xff, 0x0f]);
    assert_eq!(out.into_bytes(), vec![1, 2]);
}

#[test]
fn deserializer_methods() {
    let mut d = Deserializer::new(vec![0xff, 0xfe, 0x02, b'a', b'b', 0x01, 0x80]);
    assert_eq!(d.deserialize_i16(), Ok(-2));
    assert_eq!(d.deserialize_string().unwrap(), "ab".to_string());
    assert_eq!(d.deserialize_bool(), Ok(true));
    assert_eq!(d.deserialize_i8(), Ok(-128));
    assert!(d.is_empty());
}

#[test]
fn error_descriptions() {
    assert_eq!(Error::Eof.describe(), "unexpected end of input".to_string());
    assert_eq!(Error::InvalidData.describe(), "invalid data was received".to_string());
    assert_eq!(Error::Unimplemented.describe(), "the datatype is not implemented".to_string());
    let e = Error::custom("no such type".to_string());
    assert_eq!(e, Error::Message("no such type".to_string()));
    assert_eq!(e.describe(), "no such type".to_string());
}

#[test]
fn float_bits_big_endian() {
    let v: f32 = 1.5;
    let bytes = to_bytes(&Value::U32(v.to_bits()), &Shape::U32).unwrap();
    assert_eq!(bytes, vec![0x3f, 0xc0, 0x00, 0x00]);
    let w: f64 = -2.0;
    let bytes = to_bytes(&Value::U64(w.to_bits()), &Shape::U64).unwrap();
    assert_eq!(bytes, vec![0xc0, 0, 0, 0, 0, 0, 0, 0]);
    match from_bytes(&bytes, &Shape::U64).unwrap() {
        Value::U64(bits) => assert_eq!(f64::from_bits(bits), -2.0),
        _ => panic!("not a u64"),
    }
}

#[test]
fn cursor_after_lossy_string() {
    let mut d = Deserializer::new(vec![0x01, 0xff]);
    assert_eq!(d.deserialize_string().unwrap(), "\u{fffd}".to_string());
    assert_eq!(d.remaining(), 0);
}

#[test]
fn cursor_stays_at_end_of_input() {
    let mut d = Deserializer::new(vec![0x01]);
    assert_eq!(d.read_byte(), Ok(0x01));
    assert_eq!(d.read_byte(), Err(Error::Eof));
    assert_eq!(d.remaining(), 0);
    let mut d = Deserializer::new(vec![0x01, 0x02, 0x03]);
    assert_eq!(d.deserialize_u32(), Err(Error::Eof));
    assert_eq!(d.remaining(), 3);
}

#[test]
fn unsupported_shapes_read_nothing() {
    for shape in [
        Shape::Optional(Box::new(Shape::U8)),
        Shape::KeyValue(Box::new(Shape::U8), Box::new(Shape::U8)),
        Shape::Any,
    ] {
        let mut d = Deserializer::new(vec![0x01, 0x02]);
        assert_eq!(d.deserialize_value(&shape), Err(Error::Unimplemented));
        assert_eq!(d.remaining(), 2);
    }
}

#[test]
fn unknown_discriminant_reads_no_payload() {
    let variants = vec![
        Variant { discriminant: 0, fields: vec![] },
        Variant { discriminant: 1, fields: vec![Shape::Text] },
    ];
    let mut d = Deserializer::new(vec![0x05, 0x04, b'T', b'E', b'S', b'T']);
    assert_eq!(d.deserialize_enum(&variants), Err(Error::InvalidData));
    assert_eq!(d.remaining(), 5);
}

#[test]
fn varint_cap_stops_after_five_bytes() {
    let mut d = Deserializer::new(vec![0xff; 8]);
    assert_eq!(varint::deserialize(&mut d), Err(Error::InvalidData));
    assert_eq!(d.remaining(), 3);
    let mut d = Deserializer::new(vec![0xff; 12]);
    assert_eq!(varlong::deserialize(&mut d), Err(Error::InvalidData));
    assert_eq!(d.remaining(), 2);
}

#[test]
fn counted_sequence_stops_at_failing_element() {
    let mut d = Deserializer::new(vec![0x03, 0x01, 0x02, 0x07, 0x09]);
    assert_eq!(vec_sized::deserialize(&mut d, &Shape::Bool), Err(Error::InvalidData));
    assert_eq!(d.remaining(), 2);
}

#[test]
fn refused_encodings_write_nothing() {
    let mut s = Serializer::new();
    s.serialize_u8(7).unwrap();
    assert_eq!(s.serialize_char('\u{263a}'), Err(Error::Unimplemented));
    assert_eq!(
        s.serialize_value(&Value::U8(1), &Shape::Optional(Box::new(Shape::U8))),
        Err(Error::Unimplemented)
    );
    assert_eq!(s.serialize_value(&Value::U8(1), &Shape::Bool), Err(Error::InvalidData));
    assert_eq!(s.into_bytes(), vec![0x07]);
}

#[test]
fn empty_sequence_of_unsupported_elements_fails() {
    let shape = Shape::Sized(Box::new(Shape::Tuple(vec![Shape::Any])));
    assert_eq!(to_bytes(&Value::List(vec![]), &shape), Err(Error::Unimplemented));
    assert_eq!(from_bytes(&[0x00], &shape), Err(Error::Unimplemented));
    let shape = Shape::Unsized(Box::new(Shape::Optional(Box::new(Shape::U8))));
    assert_eq!(to_bytes(&Value::List(vec![]), &shape), Err(Error::Unimplemented));
    assert_eq!(from_bytes(&[], &shape), Err(Error::Unimplemented));
}
