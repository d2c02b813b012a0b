use zenoh_jni::decode::deserialize_top;
use zenoh_jni::encode::serialize_top;
use zenoh_jni::error::CodecError;
use zenoh_jni::tag::TypeTag;
use zenoh_jni::value::HostValue;

fn int_tag() -> TypeTag {
    TypeTag::Int
}

fn list_of(t: TypeTag) -> TypeTag {
    TypeTag::List(Box::new(t))
}

fn map_of(k: TypeTag, v: TypeTag) -> TypeTag {
    TypeTag::MapOf(Box::new(k), Box::new(v))
}

#[test]
fn int_42_is_four_fixed_bytes() {
    let bytes = serialize_top(&HostValue::Int(42), &int_tag()).unwrap();
    assert_eq!(bytes, vec![42, 0, 0, 0]);
    let back = deserialize_top(&int_tag(), &bytes).unwrap();
    assert_eq!(back, HostValue::Int(42));
}

#[test]
fn list_of_ints_has_length_prefix_and_order() {
    let value = HostValue::List(vec![HostValue::Int(1), HostValue::Int(2), HostValue::Int(3)]);
    let tag = list_of(TypeTag::Int);
    let bytes = serialize_top(&value, &tag).unwrap();
    assert_eq!(bytes, vec![3, 1, 0, 0, 0, 2, 0, 0, 0, 3, 0, 0, 0]);
    let back = deserialize_top(&tag, &bytes).unwrap();
    assert_eq!(back, value);
}

#[test]
fn map_of_string_to_int_keeps_native_order() {
    let value = HostValue::MapOf(vec![
        (HostValue::Text(b"a".to_vec()), HostValue::Int(1)),
        (HostValue::Text(b"b".to_vec()), HostValue::Int(2)),
    ]);
    let tag = map_of(TypeTag::Text, TypeTag::Int);
    let bytes = serialize_top(&value, &tag).unwrap();
    assert_eq!(bytes, vec![2, 1, b'a', 1, 0, 0, 0, 1, b'b', 2, 0, 0, 0]);
    let back = deserialize_top(&tag, &bytes).unwrap();
    assert_eq!(back, value);
}

#[test]
fn nested_list_of_map_of_list_round_trips() {
    let inner = HostValue::List(vec![HostValue::Int(7), HostValue::Int(8)]);
    let value = HostValue::List(vec![HostValue::MapOf(vec![(
        HostValue::Text(b"x".to_vec()),
        inner,
    )])]);
    let tag = list_of(map_of(TypeTag::Text, list_of(TypeTag::Int)));
    let bytes = serialize_top(&value, &tag).unwrap();
    assert_eq!(
        bytes,
        vec![1, 1, 1, b'x', 2, 7, 0, 0, 0, 8, 0, 0, 0]
    );
    let back = deserialize_top(&tag, &bytes).unwrap();
    assert_eq!(back, value);
}

#[test]
fn int_bytes_read_as_string_fail() {
    let bytes = serialize_top(&HostValue::Int(42), &int_tag()).unwrap();
    let r = deserialize_top(&TypeTag::Text, &bytes);
    assert_eq!(r, Err(CodecError::Truncated));
}

#[test]
fn truncating_by_one_byte_fails_with_truncated() {
    let value = HostValue::List(vec![HostValue::Int(1), HostValue::Int(2), HostValue::Int(3)]);
    let tag = list_of(TypeTag::Int);
    let mut bytes = serialize_top(&value, &tag).unwrap();
    bytes.pop();
    assert_eq!(deserialize_top(&tag, &bytes), Err(CodecError::Truncated));
}

#[test]
fn every_truncation_point_fails_with_truncated() {
    let value = HostValue::MapOf(vec![
        (HostValue::Text(b"key".to_vec()), HostValue::Long(-5)),
        (HostValue::Text(b"other".to_vec()), HostValue::Long(99)),
    ]);
    let tag = map_of(TypeTag::Text, TypeTag::Long);
    let bytes = serialize_top(&value, &tag).unwrap();
    for keep in 0..bytes.len() {
        let cut = bytes[..keep].to_vec();
        assert_eq!(deserialize_top(&tag, &cut), Err(CodecError::Truncated));
    }
}

#[test]
fn trailing_byte_fails_with_trailing_data() {
    let value = HostValue::List(vec![HostValue::Int(1)]);
    let tag = list_of(TypeTag::Int);
    let mut bytes = serialize_top(&value, &tag).unwrap();
    bytes.push(0);
    assert_eq!(deserialize_top(&tag, &bytes), Err(CodecError::TrailingData));
}

#[test]
fn booleans_encode_as_single_strict_byte() {
    let t = TypeTag::Boolean;
    assert_eq!(serialize_top(&HostValue::Boolean(true), &t).unwrap(), vec![1]);
    assert_eq!(serialize_top(&HostValue::Boolean(false), &t).unwrap(), vec![0]);
    assert_eq!(deserialize_top(&t, &vec![1]).unwrap(), HostValue::Boolean(true));
    assert_eq!(deserialize_top(&t, &vec![0]).unwrap(), HostValue::Boolean(false));
    assert_eq!(
        deserialize_top(&t, &vec![2]),
        Err(CodecError::ScalarConversion(TypeTag::Boolean))
    );
}

#[test]
fn negative_scalars_use_twos_complement_little_endian() {
    assert_eq!(
        serialize_top(&HostValue::Byte(-1), &TypeTag::Byte).unwrap(),
        vec![0xff]
    );
    assert_eq!(
        serialize_top(&HostValue::Short(-2), &TypeTag::Short).unwrap(),
        vec![0xfe, 0xff]
    );
    let bytes = serialize_top(&HostValue::Long(i64::MIN), &TypeTag::Long).unwrap();
    assert_eq!(bytes, vec![0, 0, 0, 0, 0, 0, 0, 0x80]);
    assert_eq!(
        deserialize_top(&TypeTag::Long, &bytes).unwrap(),
        HostValue::Long(i64::MIN)
    );
}

#[test]
fn float_bits_travel_unchanged() {
    let bits = 1.5f32.to_bits();
    let bytes = serialize_top(&HostValue::Float(bits), &TypeTag::Float).unwrap();
    assert_eq!(bytes, vec![0, 0, 0xc0, 0x3f]);
    let back = deserialize_top(&TypeTag::Float, &bytes).unwrap();
    assert_eq!(back, HostValue::Float(bits));
    match back {
        HostValue::Float(b) => assert_eq!(f32::from_bits(b), 1.5f32),
        _ => panic!("not a float"),
    }

    let dbits = (-2.25f64).to_bits();
    let dbytes = serialize_top(&HostValue::Double(dbits), &TypeTag::Double).unwrap();
    let dback = deserialize_top(&TypeTag::Double, &dbytes).unwrap();
    assert_eq!(dback, HostValue::Double(dbits));
}

#[test]
fn empty_string_and_bytes_are_one_zero_byte() {
    assert_eq!(
        serialize_top(&HostValue::Text(vec![]), &TypeTag::Text).unwrap(),
        vec![0]
    );
    assert_eq!(
        serialize_top(&HostValue::Bytes(vec![]), &TypeTag::ByteArray).unwrap(),
        vec![0]
    );
    assert_eq!(
        deserialize_top(&TypeTag::Text, &vec![0]).unwrap(),
        HostValue::Text(vec![])
    );
    assert_eq!(
        deserialize_top(&TypeTag::ByteArray, &vec![3, 9, 8, 7]).unwrap(),
        HostValue::Bytes(vec![9, 8, 7])
    );
}

#[test]
fn long_list_uses_two_byte_varint_count() {
    let mut elems = Vec::new();
    for _ in 0..130 {
        elems.push(HostValue::Boolean(true));
    }
    let value = HostValue::List(elems);
    let tag = list_of(TypeTag::Boolean);
    let bytes = serialize_top(&value, &tag).unwrap();
    assert_eq!(bytes.len(), 2 + 130);
    assert_eq!(bytes[0], 130);
    assert_eq!(bytes[1], 1);
    let back = deserialize_top(&tag, &bytes).unwrap();
    assert_eq!(back, value);
}

#[test]
fn value_not_matching_tag_fails_serialization() {
    assert_eq!(
        serialize_top(&HostValue::Int(1), &TypeTag::Boolean),
        Err(CodecError::ScalarConversion(TypeTag::Boolean))
    );
    let tag = list_of(TypeTag::Int);
    assert_eq!(
        serialize_top(
            &HostValue::List(vec![HostValue::Int(1), HostValue::Boolean(true)]),
            &tag
        ),
        Err(CodecError::ScalarConversion(TypeTag::Int))
    );
}

#[test]
fn empty_list_and_map_round_trip() {
    let lt = list_of(TypeTag::Int);
    let lv = HostValue::List(vec![]);
    let lb = serialize_top(&lv, &lt).unwrap();
    assert_eq!(lb, vec![0]);
    assert_eq!(deserialize_top(&lt, &lb).unwrap(), lv);

    let mt = map_of(TypeTag::Text, TypeTag::Int);
    let mv = HostValue::MapOf(vec![]);
    let mb = serialize_top(&mv, &mt).unwrap();
    assert_eq!(mb, vec![0]);
    assert_eq!(deserialize_top(&mt, &mb).unwrap(), mv);
}

#[test]
fn duplicate_keys_are_preserved_not_deduplicated() {
    let value = HostValue::MapOf(vec![
        (HostValue::Int(1), HostValue::Boolean(true)),
        (HostValue::Int(1), HostValue::Boolean(false)),
    ]);
    let tag = map_of(TypeTag::Int, TypeTag::Boolean);
    let bytes = serialize_top(&value, &tag).unwrap();
    let back = deserialize_top(&tag, &bytes).unwrap();
    assert_eq!(back, value);
}

#[test]
fn count_exceeding_remaining_bytes_is_truncation() {
    let tag = list_of(TypeTag::Int);
    let bytes = vec![5, 1, 0, 0, 0];
    assert_eq!(deserialize_top(&tag, &bytes), Err(CodecError::Truncated));
}

#[test]
fn negative_int_round_trips_through_exact_bytes() {
    let bytes = serialize_top(&HostValue::Int(-2), &TypeTag::Int).unwrap();
    assert_eq!(bytes, vec![0xfe, 0xff, 0xff, 0xff]);
    assert_eq!(deserialize_top(&TypeTag::Int, &bytes).unwrap(), HostValue::Int(-2));
    let sbytes = serialize_top(&HostValue::Short(i16::MIN), &TypeTag::Short).unwrap();
    assert_eq!(
        deserialize_top(&TypeTag::Short, &sbytes).unwrap(),
        HostValue::Short(i16::MIN)
    );
}

#[test]
fn text_carries_utf8_bytes_with_length_prefix() {
    let value = HostValue::Text("héllo".as_bytes().to_vec());
    let bytes = serialize_top(&value, &TypeTag::Text).unwrap();
    assert_eq!(bytes[0] as usize, "héllo".as_bytes().len());
    assert_eq!(deserialize_top(&TypeTag::Text, &bytes).unwrap(), value);
}
