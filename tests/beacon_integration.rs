use tmtc_system::{
    Beacon, Primitive, Registry, Schema, SchemaNode, TelemetryDefinition, TypeDesc, Value,
};

fn test_value_type() -> TypeDesc {
    TypeDesc::Struct(vec![TypeDesc::Scalar(Primitive::U32)])
}

fn test_vector_type() -> TypeDesc {
    TypeDesc::Struct(vec![
        TypeDesc::Scalar(Primitive::I16),
        TypeDesc::Scalar(Primitive::F32),
        test_value_type(),
    ])
}

fn leaf(name: &str, address: Option<&str>, ty: TypeDesc) -> SchemaNode {
    SchemaNode::Leaf {
        name: name.to_string(),
        address: address.map(|a| a.to_string()),
        ty,
    }
}

fn registry() -> Registry {
    Registry::build(Schema {
        name: "telemetry".to_string(),
        start_id: 0,
        children: vec![
            leaf("FirstTMValue", Some("first_value"), TypeDesc::Scalar(Primitive::U32)),
            leaf("SecondTMValue", None, test_value_type()),
            SchemaNode::Module {
                name: "some_other_mod".to_string(),
                start_id: Some(100),
                children: vec![leaf("ThirdTMValue", None, test_vector_type())],
            },
        ],
    })
    .unwrap()
}

fn members(reg: &Registry) -> Vec<&TelemetryDefinition> {
    vec![
        reg.from_id(0).unwrap(),
        reg.from_id(1).unwrap(),
        reg.from_id(100).unwrap(),
    ]
}

fn crc_ccitt(bytes: &[u8]) -> u16 {
    let mut crc: u16 = 0xFFFF;
    for byte in bytes {
        crc ^= (*byte as u16) << 8;
        for _ in 0..8 {
            if (crc & 0x8000) != 0 {
                crc = (crc << 1) ^ 0x1021;
            } else {
                crc <<= 1;
            }
        }
    }
    crc
}

fn first_value() -> Value {
    Value::Scalar(1234u32 as u128)
}

fn second_value() -> Value {
    Value::List(vec![Value::Scalar(3)])
}

fn third_value() -> Value {
    Value::List(vec![
        Value::Scalar(3i16 as u16 as u128),
        Value::Scalar(3.3f32.to_bits() as u128),
        Value::List(vec![Value::Scalar(1)]),
    ])
}

#[test]
fn beacon_integration_beacon_creation() {
    let reg = registry();
    let beacon = Beacon::new(0, None, members(&reg)).unwrap();

    // Every field is absent: the frame is the header and the presence bitmap.
    let sizes = [3, 1];
    assert_eq!(beacon.encode(crc_ccitt).len(), sizes.iter().sum());
}

#[test]
fn beacon_insertion() {
    let reg = registry();
    let mut beacon = Beacon::new(0, None, members(&reg)).unwrap();

    beacon.set_field(0, first_value()).unwrap();
    beacon.set_field(1, second_value()).unwrap();
    beacon.set_field(2, third_value()).unwrap();

    let bytes = beacon.encode(crc_ccitt);
    let crc = crc_ccitt(&bytes[3..]);
    // CRC-16/CCITT-FALSE of 07 D2 04 00 00 03 00 00 00 03 00 33 33 53 40 01 00 00 00
    assert_eq!(crc, 0x3EA8);

    assert_eq!(bytes[0], 0);
    assert_eq!(bytes[1..3], crc.to_le_bytes());
    assert_eq!(bytes[3], 0b0000_0111);
    assert_eq!(bytes[4..8], 1234u32.to_le_bytes());
    assert_eq!(bytes[8..12], 3u32.to_le_bytes());
    assert_eq!(bytes[12..14], 3i16.to_le_bytes());
    assert_eq!(bytes[14..18], 3.3f32.to_le_bytes());
    assert_eq!(bytes[18..22], 1u32.to_le_bytes());
    assert_eq!(bytes.len(), 22);
}

#[test]
fn beacon_insertion_id() {
    let reg = registry();
    let mut id_beacon = Beacon::new(0, None, members(&reg)).unwrap();
    let mut beacon = Beacon::new(0, None, members(&reg)).unwrap();

    let first = reg.from_id(0).unwrap();
    let second = reg.from_id(1).unwrap();
    let third = reg.from_id(100).unwrap();
    id_beacon
        .insert_slice(first, &first.value_type().encode(&first_value()))
        .unwrap();
    id_beacon
        .insert_slice(second, &second.value_type().encode(&second_value()))
        .unwrap();
    id_beacon
        .insert_slice(third, &third.value_type().encode(&third_value()))
        .unwrap();

    beacon.set_field(0, first_value()).unwrap();
    beacon.set_field(1, second_value()).unwrap();
    beacon.set_field(2, third_value()).unwrap();

    assert_eq!(id_beacon.encode(crc_ccitt), beacon.encode(crc_ccitt));
}

#[test]
fn beacon_insertion_address() {
    let reg = registry();
    let mut address_beacon = Beacon::new(0, None, members(&reg)).unwrap();
    let mut beacon = Beacon::new(0, None, members(&reg)).unwrap();

    let first = reg.from_address("telemetry.first_value").unwrap();
    let second = reg.from_address("telemetry.second_tm_value").unwrap();
    let third = reg
        .from_address("telemetry.some_other_mod.third_tm_value")
        .unwrap();
    address_beacon
        .insert_slice(first, &first.value_type().encode(&first_value()))
        .unwrap();
    address_beacon
        .insert_slice(second, &second.value_type().encode(&second_value()))
        .unwrap();
    address_beacon
        .insert_slice(third, &third.value_type().encode(&third_value()))
        .unwrap();

    beacon.set_field(0, first_value()).unwrap();
    beacon.set_field(1, second_value()).unwrap();
    beacon.set_field(2, third_value()).unwrap();

    assert_eq!(address_beacon.encode(crc_ccitt), beacon.encode(crc_ccitt));
}
