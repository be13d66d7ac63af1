use tmtc_system::{NotFound, Primitive, Registry, Schema, SchemaError, SchemaNode, TypeDesc};

fn leaf(name: &str, address: Option<&str>, ty: TypeDesc) -> SchemaNode {
    SchemaNode::Leaf {
        name: name.to_string(),
        address: address.map(|a| a.to_string()),
        ty,
    }
}

fn module(name: &str, start_id: Option<u16>, children: Vec<SchemaNode>) -> SchemaNode {
    SchemaNode::Module { name: name.to_string(), start_id, children }
}

fn u32_type() -> TypeDesc {
    TypeDesc::Scalar(Primitive::U32)
}

fn schema(start_id: u16, children: Vec<SchemaNode>) -> Schema {
    Schema { name: "telemetry".to_string(), start_id, children }
}

fn sample() -> Registry {
    Registry::build(schema(
        5,
        vec![
            leaf("BatteryVoltage", None, u32_type()),
            module(
                "power",
                None,
                vec![
                    leaf("SolarCurrent", None, TypeDesc::Scalar(Primitive::U16)),
                    module("deep", Some(40), vec![leaf("Inner", Some("x"), u32_type())]),
                ],
            ),
            leaf("Last", None, TypeDesc::Scalar(Primitive::U64)),
        ],
    ))
    .unwrap()
}

#[test]
fn ids_follow_declaration_order_and_jumps() {
    let reg = sample();
    assert_eq!(reg.len(), 4);
    let ids: Vec<u16> = (0..reg.len()).map(|i| reg.definition(i).id()).collect();
    assert_eq!(ids, vec![5, 6, 40, 41]);
}

#[test]
fn addresses_are_dotted_snake_case_paths() {
    let reg = sample();
    let addresses: Vec<&str> = (0..reg.len()).map(|i| reg.definition(i).address()).collect();
    assert_eq!(
        addresses,
        vec![
            "telemetry.battery_voltage",
            "telemetry.power.solar_current",
            "telemetry.power.deep.x",
            "telemetry.last",
        ]
    );
}

#[test]
fn every_leaf_is_found_by_its_id_and_address() {
    let reg = sample();
    for i in 0..reg.len() {
        let d = reg.definition(i);
        assert_eq!(reg.from_id(d.id()).unwrap().address(), d.address());
        assert_eq!(reg.from_address(d.address()).unwrap().id(), d.id());
    }
}

#[test]
fn unknown_id_or_address_is_not_found() {
    let reg = sample();
    assert_eq!(reg.from_id(7).err(), Some(NotFound));
    assert_eq!(reg.from_id(u16::MAX).err(), Some(NotFound));
    assert_eq!(reg.from_address("telemetry.power").err(), Some(NotFound));
    assert_eq!(reg.from_address("").err(), Some(NotFound));
    assert_eq!(reg.namespace("telemetry.nothing").err(), Some(NotFound));
}

#[test]
fn namespaces_have_ranges_and_max_sizes() {
    let reg = sample();
    let root = reg.namespace("telemetry").unwrap();
    assert_eq!(root.id_range(), (5, 42));
    assert_eq!(root.max_byte_size(), 8);
    let power = reg.namespace("telemetry.power").unwrap();
    assert_eq!(power.id_range(), (6, 41));
    assert_eq!(power.max_byte_size(), 4);
    let deep = reg.namespace("telemetry.power.deep").unwrap();
    assert_eq!(deep.id_range(), (40, 41));
    assert_eq!(deep.address(), "telemetry.power.deep");
}

#[test]
fn empty_namespace_has_empty_range() {
    let reg = Registry::build(schema(3, vec![module("empty", None, vec![])])).unwrap();
    let ns = reg.namespace("telemetry.empty").unwrap();
    assert_eq!(ns.id_range(), (3, 3));
    assert_eq!(ns.max_byte_size(), 0);
}

#[test]
fn ids_moving_backward_are_refused() {
    let r = Registry::build(schema(
        10,
        vec![leaf("A", None, u32_type()), module("m", Some(5), vec![])],
    ));
    assert_eq!(r.err(), Some(SchemaError::IdsMovedBackward));
}

#[test]
fn id_space_overflow_is_refused() {
    let r = Registry::build(schema(u16::MAX, vec![leaf("A", None, u32_type())]));
    assert_eq!(r.err(), Some(SchemaError::IdOverflow));
    let r = Registry::build(schema(u16::MAX - 1, vec![leaf("A", None, u32_type())]));
    assert_eq!(r.unwrap().definition(0).id(), u16::MAX - 1);
}

#[test]
fn malformed_type_is_refused() {
    let r = Registry::build(schema(0, vec![leaf("A", None, TypeDesc::Enum(vec![]))]));
    assert_eq!(r.err(), Some(SchemaError::InvalidType));
}

#[test]
fn duplicate_address_is_refused() {
    let r = Registry::build(schema(
        0,
        vec![leaf("FirstValue", None, u32_type()), leaf("Other", Some("first_value"), u32_type())],
    ));
    assert_eq!(r.err(), Some(SchemaError::DuplicateAddress));
    let r = Registry::build(schema(0, vec![module("m", None, vec![]), module("m", None, vec![])]));
    assert_eq!(r.err(), Some(SchemaError::DuplicateAddress));
}

#[test]
fn leaf_name_is_snake_cased() {
    let reg = Registry::build(schema(0, vec![leaf("SecondTMValue", None, u32_type())])).unwrap();
    assert_eq!(reg.definition(0).address(), "telemetry.second_tm_value");
    assert!(reg.from_address("telemetry.SecondTMValue").is_err());
}
