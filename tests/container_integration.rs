use tmtc_system::{
    Primitive, Registry, Schema, SchemaNode, TelemetryContainer, TypeDesc, UnsupportedValue, Value,
};

fn test_value_type() -> TypeDesc {
    TypeDesc::Struct(vec![TypeDesc::Scalar(Primitive::U32)])
}

fn test_vector_type() -> TypeDesc {
    TypeDesc::Struct(vec![
        TypeDesc::Scalar(Primitive::I16),
        TypeDesc::Scalar(Primitive::F32),
        test_value_type(),
    ])
}

fn leaf(name: &str, ty: TypeDesc) -> SchemaNode {
    SchemaNode::Leaf { name: name.to_string(), address: None, ty }
}

fn registry() -> Registry {
    Registry::build(Schema {
        name: "telemetry".to_string(),
        start_id: 0,
        children: vec![
            leaf("FirstTMValue", TypeDesc::Scalar(Primitive::U32)),
            leaf("SecondTMValue", test_vector_type()),
            SchemaNode::Module {
                name: "some_other_mod".to_string(),
                start_id: Some(100),
                children: vec![
                    leaf("ThirdTMValue", TypeDesc::Scalar(Primitive::U64)),
                    leaf("FourthTMValue", TypeDesc::Scalar(Primitive::I32)),
                    leaf("FifthTMValue", test_value_type()),
                ],
            },
        ],
    })
    .unwrap()
}

#[test]
fn partial_container_creation() {
    let reg = registry();
    assert_eq!(
        reg.namespace("telemetry.some_other_mod").unwrap().max_byte_size(),
        8
    );

    let fourth = reg
        .from_address("telemetry.some_other_mod.fourth_tm_value")
        .unwrap();
    let container =
        TelemetryContainer::<8>::new(fourth, &Value::Scalar(42i32 as u32 as u128)).unwrap();
    assert_eq!(container.id(), 101);

    assert_eq!(container.bytes().len(), 4);
    assert_eq!(container.bytes()[0..4], 42i32.to_le_bytes());
}

#[test]
fn full_container_creation() {
    let reg = registry();
    assert_eq!(reg.namespace("telemetry").unwrap().max_byte_size(), 10);

    let second = reg.from_address("telemetry.second_tm_value").unwrap();
    let container = TelemetryContainer::<10>::new(
        second,
        &Value::List(vec![
            Value::Scalar(12i16 as u16 as u128),
            Value::Scalar(24f32.to_bits() as u128),
            Value::List(vec![Value::Scalar(36)]),
        ]),
    )
    .unwrap();
    assert_eq!(container.id(), 1);

    assert_eq!(container.bytes().len(), 10);
    assert_eq!(container.bytes()[0..2], 12i16.to_le_bytes());
    assert_eq!(container.bytes()[2..6], 24f32.to_le_bytes());
    assert_eq!(container.bytes()[6..10], 36u32.to_le_bytes());
}

#[test]
fn container_rejects_value_of_other_type() {
    let reg = registry();
    let fourth = reg.from_id(101).unwrap();
    let r = TelemetryContainer::<8>::new(fourth, &Value::List(vec![]));
    assert_eq!(r.err(), Some(UnsupportedValue));
}

#[test]
fn container_rejects_value_longer_than_buffer() {
    let reg = registry();
    let third = reg.from_id(100).unwrap();
    let r = TelemetryContainer::<4>::new(third, &Value::Scalar(7));
    assert_eq!(r.err(), Some(UnsupportedValue));
}

#[test]
fn id_ranges_of_namespaces() {
    let reg = registry();
    assert_eq!(reg.namespace("telemetry").unwrap().id_range(), (0, 103));
    assert_eq!(
        reg.namespace("telemetry.some_other_mod").unwrap().id_range(),
        (100, 103)
    );
}
