use tmtc_system::{Beacon, Primitive, Registry, Schema, SchemaNode, TypeDesc};

fn test_value_type() -> TypeDesc {
    TypeDesc::Struct(vec![TypeDesc::Scalar(Primitive::U32)])
}

fn test_vector_type() -> TypeDesc {
    TypeDesc::Struct(vec![
        TypeDesc::Scalar(Primitive::I16),
        TypeDesc::Scalar(Primitive::F32),
        test_value_type(),
    ])
}

#[test]
fn integration_beacon_creation() {
    let reg = Registry::build(Schema {
        name: "telemetry".to_string(),
        start_id: 0,
        children: vec![
            SchemaNode::Leaf {
                name: "FirstTMValue".to_string(),
                address: Some("first_value".to_string()),
                ty: TypeDesc::Scalar(Primitive::U32),
            },
            SchemaNode::Leaf {
                name: "SecondTMValue".to_string(),
                address: None,
                ty: test_value_type(),
            },
            SchemaNode::Module {
                name: "some_other_mod".to_string(),
                start_id: None,
                children: vec![SchemaNode::Leaf {
                    name: "ThirdTMValue".to_string(),
                    address: None,
                    ty: test_vector_type(),
                }],
            },
        ],
    })
    .unwrap();
    let members = vec![
        reg.from_id(0).unwrap(),
        reg.from_id(1).unwrap(),
        reg.from_id(2).unwrap(),
    ];
    let sizes: Vec<usize> = members.iter().map(|d| d.byte_size()).collect();
    let beacon = Beacon::new(0, None, members).unwrap();

    assert_eq!(beacon.encode(|_: &[u8]| 0u16).len(), 3 + 1);
    assert_eq!(sizes, vec![4, 4, 2 + 4 + 4]);
}
