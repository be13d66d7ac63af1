use tmtc_system::{
    Beacon, FieldError, InsertError, LayoutError, NotFound, ParseError, Primitive, Registry, Schema,
    SchemaNode, TelemetryDefinition, TypeDesc, Value, HEADER_LEN,
};

fn crc_ccitt(bytes: &[u8]) -> u16 {
    let mut crc: u16 = 0xFFFF;
    for byte in bytes {
        crc ^= (*byte as u16) << 8;
        for _ in 0..8 {
            if (crc & 0x8000) != 0 {
                crc = (crc << 1) ^ 0x1021;
            } else {
                crc <<= 1;
            }
        }
    }
    crc
}

fn leaf(name: &str, ty: TypeDesc) -> SchemaNode {
    SchemaNode::Leaf { name: name.to_string(), address: None, ty }
}

fn registry() -> Registry {
    Registry::build(Schema {
        name: "tm".to_string(),
        start_id: 0,
        children: vec![
            leaf("Timestamp", TypeDesc::Scalar(Primitive::I64)),
            leaf("A", TypeDesc::Scalar(Primitive::U32)),
            leaf("B", TypeDesc::Scalar(Primitive::U32)),
            leaf("C", TypeDesc::Scalar(Primitive::U32)),
            leaf(
                "Mode",
                TypeDesc::Enum(vec![vec![], vec![TypeDesc::Scalar(Primitive::U8)]]),
            ),
        ],
    })
    .unwrap()
}

fn abc(reg: &Registry) -> Vec<&TelemetryDefinition> {
    vec![reg.from_id(1).unwrap(), reg.from_id(2).unwrap(), reg.from_id(3).unwrap()]
}

fn full(reg: &Registry) -> Beacon<'_> {
    let mut members = abc(reg);
    members.push(reg.from_id(4).unwrap());
    let mut b = Beacon::new(9, Some(reg.from_id(0).unwrap()), members).unwrap();
    b.set_timestamp(Value::Scalar((-5i64) as u64 as u128)).unwrap();
    b.set_field(0, Value::Scalar(10)).unwrap();
    b.set_field(2, Value::Scalar(30)).unwrap();
    b.set_field(3, Value::Variant(1, vec![Value::Scalar(7)])).unwrap();
    b
}

fn fields(b: &Beacon) -> Vec<String> {
    (0..b.field_count()).map(|i| format!("{:?}", b.field(i))).collect()
}

fn absent(n: usize) -> Vec<String> {
    vec![format!("{:?}", None::<&Value>); n]
}

#[test]
fn three_absent_fields_encode_to_header_length() {
    let reg = registry();
    let b = Beacon::new(1, None, abc(&reg)).unwrap();
    let bytes = b.encode(crc_ccitt);
    assert_eq!(bytes.len(), HEADER_LEN + 1);
    assert_eq!(bytes[3], 0);
}

#[test]
fn first_and_third_fields_present() {
    let reg = registry();
    let mut b = Beacon::new(1, None, abc(&reg)).unwrap();
    b.set_field(0, Value::Scalar(0x11)).unwrap();
    b.set_field(2, Value::Scalar(0x33)).unwrap();
    let bytes = b.encode(crc_ccitt);
    assert_eq!(bytes.len(), HEADER_LEN + 1 + 4 + 4);
    assert_eq!(bytes[3] & 0b001, 0b001);
    assert_eq!(bytes[3] & 0b010, 0);
    assert_eq!(bytes[3] & 0b100, 0b100);
    assert_eq!(bytes[4..8], 0x11u32.to_le_bytes());
    assert_eq!(bytes[8..12], 0x33u32.to_le_bytes());
}

#[test]
fn decode_of_encode_gives_back_the_beacon() {
    let reg = registry();
    let b = full(&reg);
    let bytes = b.encode(crc_ccitt);

    let mut members = abc(&reg);
    members.push(reg.from_id(4).unwrap());
    let mut c = Beacon::new(9, Some(reg.from_id(0).unwrap()), members).unwrap();
    c.decode(&bytes, crc_ccitt).unwrap();
    assert_eq!(fields(&c), fields(&b));
    assert_eq!(c.timestamp(), b.timestamp());
    assert_eq!(c.encode(crc_ccitt), bytes);
}

#[test]
fn corrupted_byte_gives_bad_crc_and_no_change() {
    let reg = registry();
    let b = full(&reg);
    let bytes = b.encode(crc_ccitt);
    for i in HEADER_LEN..bytes.len() {
        let mut bad = bytes.clone();
        bad[i] ^= 0x5A;
        let mut c = full(&reg);
        c.flush();
        assert_eq!(c.decode(&bad, crc_ccitt), Err(ParseError::BadCrc));
        assert_eq!(fields(&c), absent(4));
    }
}

#[test]
fn wrong_id_gives_wrong_id_and_no_change() {
    let reg = registry();
    let b = full(&reg);
    let mut bytes = b.encode(crc_ccitt);
    bytes[0] = 8;
    let mut c = full(&reg);
    c.clear_field(0).unwrap();
    let before = fields(&c);
    assert_eq!(c.decode(&bytes, crc_ccitt), Err(ParseError::WrongId));
    assert_eq!(fields(&c), before);
}

#[test]
fn short_frames_are_out_of_memory() {
    let reg = registry();
    let mut c = full(&reg);
    assert_eq!(c.decode(&[9, 0], crc_ccitt), Err(ParseError::OutOfMemory));
    let bytes = full(&reg).encode(crc_ccitt);
    let mut cut = bytes[..bytes.len() - 1].to_vec();
    let crc = crc_ccitt(&cut[3..]);
    cut[1..3].copy_from_slice(&crc.to_le_bytes());
    assert_eq!(c.decode_with_crc(&cut, crc), Err(ParseError::OutOfMemory));
    assert_eq!(fields(&c), fields(&full(&reg)));
}

#[test]
fn bad_variant_tag_in_a_field_is_reported() {
    let reg = registry();
    let b = full(&reg);
    let mut bytes = b.encode(crc_ccitt);
    let tag_at = bytes.len() - 2;
    bytes[tag_at] = 5;
    let crc = crc_ccitt(&bytes[3..]).to_le_bytes();
    bytes[1] = crc[0];
    bytes[2] = crc[1];
    let mut c = full(&reg);
    assert_eq!(c.decode(&bytes, crc_ccitt), Err(ParseError::BadEnumVariant));
}

#[test]
fn insert_slice_changes_only_its_field() {
    let reg = registry();
    let mut b = full(&reg);
    let before = fields(&b);
    let def_b = reg.from_id(2).unwrap();
    b.insert_slice(def_b, &77u32.to_le_bytes()).unwrap();
    let after = fields(&b);
    assert_eq!(after[1], format!("{:?}", Some(&Value::Scalar(77))));
    assert_eq!(after[0], before[0]);
    assert_eq!(after[2], before[2]);
    assert_eq!(after[3], before[3]);
}

#[test]
fn insert_slice_errors() {
    let reg = registry();
    let mut b = Beacon::new(1, None, abc(&reg)).unwrap();
    assert_eq!(
        b.insert_slice(reg.from_id(0).unwrap(), &[0; 8]),
        Err(InsertError::DefNotInBeacon)
    );
    assert_eq!(
        b.insert_slice(reg.from_id(1).unwrap(), &[0; 3]),
        Err(InsertError::OutOfMemory)
    );
    assert_eq!(fields(&b), absent(3));
    let mut e = Beacon::new(1, None, vec![reg.from_id(4).unwrap()]).unwrap();
    assert_eq!(
        e.insert_slice(reg.from_id(4).unwrap(), &[2, 0]),
        Err(InsertError::BadEnumVariant)
    );
}

#[test]
fn flush_twice_is_flush_once() {
    let reg = registry();
    let mut b = full(&reg);
    b.flush();
    let once = fields(&b);
    let ts = format!("{:?}", b.timestamp());
    b.flush();
    assert_eq!(fields(&b), once);
    assert_eq!(once, absent(4));
    assert_eq!(format!("{:?}", b.timestamp()), ts);
}

#[test]
fn field_setting_errors() {
    let reg = registry();
    let mut b = Beacon::new(1, None, abc(&reg)).unwrap();
    assert_eq!(b.set_field(3, Value::Scalar(1)), Err(FieldError::NoSuchField));
    assert_eq!(b.set_field(0, Value::Absent), Err(FieldError::WrongType));
    assert_eq!(b.set_field(0, Value::Scalar(1 << 40)), Err(FieldError::WrongType));
    assert_eq!(b.set_timestamp(Value::Scalar(1)), Err(FieldError::NoSuchField));
    assert_eq!(b.clear_field(5), Err(FieldError::NoSuchField));
}

#[test]
fn duplicate_member_is_refused() {
    let reg = registry();
    let a = reg.from_id(1).unwrap();
    assert_eq!(Beacon::new(1, None, vec![a, a]).err(), Some(LayoutError::DuplicateMember));
}

#[test]
fn new_beacon_has_zero_timestamp() {
    let reg = registry();
    let b = Beacon::new(3, Some(reg.from_id(0).unwrap()), abc(&reg)).unwrap();
    assert_eq!(b.timestamp(), Some(&Value::Scalar(0)));
    assert_eq!(b.id(), 3);
    let bytes = b.encode(crc_ccitt);
    assert_eq!(bytes.len(), HEADER_LEN + 1 + 8);
}

#[test]
fn get_slice_gives_the_field_encoding() {
    let reg = registry();
    let b = full(&reg);
    assert_eq!(b.get_slice(reg.from_id(1).unwrap()), Ok(Some(10u32.to_le_bytes().to_vec())));
    assert_eq!(b.get_slice(reg.from_id(2).unwrap()), Ok(None));
    assert_eq!(b.get_slice(reg.from_id(4).unwrap()), Ok(Some(vec![1, 7])));
    assert_eq!(b.get_slice(reg.from_id(0).unwrap()), Err(NotFound));
}
