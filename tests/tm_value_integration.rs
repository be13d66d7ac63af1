use tmtc_system::{CodecError, Primitive, TypeDesc, Value};

fn test_value_type() -> TypeDesc {
    TypeDesc::Struct(vec![TypeDesc::Optional(Box::new(TypeDesc::Scalar(Primitive::U32)))])
}

fn test_vector_type() -> TypeDesc {
    TypeDesc::Struct(vec![
        TypeDesc::Scalar(Primitive::I16),
        TypeDesc::Scalar(Primitive::F32),
        test_value_type(),
    ])
}

fn test_enum_type() -> TypeDesc {
    TypeDesc::Enum(vec![
        vec![],
        vec![TypeDesc::Scalar(Primitive::I16)],
        vec![TypeDesc::Scalar(Primitive::F32)],
        vec![test_value_type()],
    ])
}

fn to_bytes<const N: usize>(ty: &TypeDesc, value: &Value) -> [u8; N] {
    let mut bytes = [0u8; N];
    ty.write(value, &mut bytes).unwrap();
    bytes
}

#[test]
fn tm_value_primitives() {
    let ty = TypeDesc::Scalar(Primitive::U32);
    let first_value = Value::Scalar(4433);
    let first_value_bytes: [u8; 4] = to_bytes(&ty, &first_value);
    let first_value_copy = ty.read(&first_value_bytes).unwrap().1;

    assert_eq!(4433u32.to_le_bytes(), first_value_bytes);
    assert_eq!(first_value, first_value_copy);
}

#[test]
fn tm_value_structs() {
    let first_value = Value::List(vec![Value::Present(Box::new(Value::Scalar(3)))]);
    let second_value = Value::List(vec![
        Value::Scalar(3i16 as u16 as u128),
        Value::Scalar(3.3f32.to_bits() as u128),
        Value::List(vec![Value::Present(Box::new(Value::Scalar(1)))]),
    ]);

    let first_value_bytes: [u8; 5] = to_bytes(&test_value_type(), &first_value);
    let second_value_bytes: [u8; 11] = to_bytes(&test_vector_type(), &second_value);

    let first_value_copy = test_value_type().read(&first_value_bytes).unwrap().1;
    let second_value_copy = test_vector_type().read(&second_value_bytes).unwrap().1;

    assert_eq!(first_value, first_value_copy);
    assert_eq!(second_value, second_value_copy);
}

#[test]
fn tm_value_arrays() {
    let ty = TypeDesc::Array(Box::new(TypeDesc::Scalar(Primitive::I32)), 7);
    let first_value = Value::List(
        [1i32, 2, 3, 4, 3, 2, 1]
            .iter()
            .map(|x| Value::Scalar(*x as u32 as u128))
            .collect(),
    );
    let first_value_bytes: [u8; 7 * 4] = to_bytes(&ty, &first_value);
    let first_value_copy = ty.read(&first_value_bytes).unwrap().1;

    assert_eq!(first_value, first_value_copy);
}

#[test]
fn tm_value_enums() {
    let ty = test_enum_type();
    let first_value = Value::Variant(
        3,
        vec![Value::List(vec![Value::Present(Box::new(Value::Scalar(42)))])],
    );
    let first_value_bytes: [u8; 1 + 1 + 4] = to_bytes(&ty, &first_value);
    let first_value_copy = ty.read(&first_value_bytes).unwrap().1;

    assert_eq!(first_value, first_value_copy);
}

#[test]
fn enum_size_is_tag_plus_largest_payload() {
    assert_eq!(test_enum_type().byte_size(), 1 + 5);
    assert_eq!(test_enum_type().checked_size(), Some(6));
}

#[test]
fn enum_every_variant_round_trips() {
    let ty = test_enum_type();
    let values = vec![
        Value::Variant(0, vec![]),
        Value::Variant(1, vec![Value::Scalar((-7i16) as u16 as u128)]),
        Value::Variant(2, vec![Value::Scalar(1.5f32.to_bits() as u128)]),
        Value::Variant(3, vec![Value::List(vec![Value::Absent])]),
    ];
    for v in values {
        assert!(ty.admits(&v));
        let bytes = ty.encode(&v);
        assert_eq!(ty.read(&bytes).unwrap(), (bytes.len(), v));
    }
}

#[test]
fn scalar_is_little_endian() {
    let ty = TypeDesc::Scalar(Primitive::U16);
    assert_eq!(ty.encode(&Value::Scalar(0x1234)), vec![0x34, 0x12]);
    let ty = TypeDesc::Scalar(Primitive::I64);
    let v = Value::Scalar((-2i64) as u64 as u128);
    assert_eq!(ty.encode(&v), (-2i64).to_le_bytes().to_vec());
}

#[test]
fn absent_optional_keeps_its_slot() {
    let ty = TypeDesc::Optional(Box::new(TypeDesc::Scalar(Primitive::U32)));
    assert_eq!(ty.encode(&Value::Absent), vec![0, 0, 0, 0, 0]);
    assert_eq!(ty.read(&[0, 9, 9, 9, 9, 1]).unwrap(), (5, Value::Absent));
    assert_eq!(ty.byte_size(), 5);
}

#[test]
fn read_short_buffer_is_out_of_memory() {
    let ty = TypeDesc::Scalar(Primitive::U32);
    assert_eq!(ty.read(&[1, 2, 3]), Err(CodecError::OutOfMemory));
    let opt = TypeDesc::Optional(Box::new(TypeDesc::Scalar(Primitive::U32)));
    assert_eq!(opt.read(&[0, 1, 2]), Err(CodecError::OutOfMemory));
}

#[test]
fn read_bad_tag_is_bad_enum_variant() {
    assert_eq!(test_enum_type().read(&[4, 0, 0]), Err(CodecError::BadEnumVariant));
    let opt = TypeDesc::Optional(Box::new(TypeDesc::Scalar(Primitive::U8)));
    assert_eq!(opt.read(&[2, 0]), Err(CodecError::BadEnumVariant));
}

#[test]
fn write_short_buffer_is_out_of_memory() {
    let ty = TypeDesc::Scalar(Primitive::U32);
    let mut mem = [7u8; 3];
    assert_eq!(ty.write(&Value::Scalar(1), &mut mem), Err(CodecError::OutOfMemory));
    assert_eq!(mem, [7, 7, 7]);
}

#[test]
fn write_leaves_the_rest_of_the_buffer() {
    let ty = TypeDesc::Scalar(Primitive::U16);
    let mut mem = [7u8; 4];
    assert_eq!(ty.write(&Value::Scalar(0x0102), &mut mem), Ok(2));
    assert_eq!(mem, [2, 1, 7, 7]);
}

#[test]
fn admits_checks_shape_and_range() {
    let ty = TypeDesc::Scalar(Primitive::U8);
    assert!(ty.admits(&Value::Scalar(255)));
    assert!(!ty.admits(&Value::Scalar(256)));
    assert!(!test_vector_type().admits(&Value::List(vec![Value::Scalar(1)])));
}

#[test]
fn checked_size_refuses_empty_enum_and_overflow() {
    assert_eq!(TypeDesc::Enum(vec![]).checked_size(), None);
    let huge = TypeDesc::Array(Box::new(TypeDesc::Scalar(Primitive::U64)), usize::MAX / 4);
    assert_eq!(huge.checked_size(), None);
}

#[test]
fn zero_value_of_a_struct() {
    let ty = TypeDesc::Struct(vec![
        TypeDesc::Scalar(Primitive::U8),
        TypeDesc::Optional(Box::new(TypeDesc::Scalar(Primitive::U8))),
        test_enum_type(),
    ]);
    assert_eq!(
        ty.zero_value(),
        Value::List(vec![Value::Scalar(0), Value::Absent, Value::Variant(0, vec![])])
    );
}
