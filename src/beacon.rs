//! Beacons: fixed-id frames that carry a timestamp and a chosen set of
//! optional telemetry fields.
//!
//! Wire layout: byte 0 is the beacon id; bytes 1 and 2 the CRC-16 of every
//! byte after them, little-endian; then one presence bit per field in
//! declaration order; then the timestamp, if the beacon has one; then the
//! encoding of each present field, in order, with no gap for absent ones.
use vstd::prelude::*;
use crate::bitfield::{bit_at, bits_of, get_bit, lemma_set_bit, set_bit};
use vstd::slice::slice_subrange;
use crate::registry::{find_id, lemma_find_id, DefModel, NotFound, TelemetryDefinition};
use crate::value::{
    decode_value, enc, has_type, lemma_parse_sound, lemma_round_trip, parse, wf, zero_val, zeros,
    CodecError, Val, Value,
};

verus! {

/// The length of the fixed header: the id and the CRC.
pub const HEADER_LEN: usize = 3;

/// Why a frame was not taken.
#[derive(Clone, Copy, Debug, PartialEq, Eq)]
pub enum ParseError {
    /// The frame's first byte is not this beacon's id.
    WrongId,
    /// The CRC in the frame is not the CRC of what follows it.
    BadCrc,
    /// The frame ends before what it announces.
    OutOfMemory,
    /// A tag byte names no declared variant.
    BadEnumVariant,
}

/// Why a raw value was not inserted.
#[derive(Clone, Copy, Debug, PartialEq, Eq)]
pub enum InsertError {
    /// No field of the beacon has the definition's id.
    DefNotInBeacon,
    /// The bytes end before the value does.
    OutOfMemory,
    /// A tag byte names no declared variant.
    BadEnumVariant,
}

/// Why a field was not set.
#[derive(Clone, Copy, Debug, PartialEq, Eq)]
pub enum FieldError {
    /// There is no field at that position.
    NoSuchField,
    /// The value is not of the field's type.
    WrongType,
}

/// Why a beacon could not be formed.
#[derive(Clone, Copy, Debug, PartialEq, Eq)]
pub enum LayoutError {
    /// Two fields have the same definition id.
    DuplicateMember,
}

/// The model of a beacon: its id, the definition of its timestamp if it has
/// one, the definitions of its fields, the timestamp, and each field's value
/// or absence.
pub struct BeaconModel {
    pub id: u8,
    pub ts_def: Option<DefModel>,
    pub members: Seq<DefModel>,
    pub timestamp: Option<Val>,
    pub fields: Seq<Option<Val>>,
}

/// The beacon's invariant.
pub open spec fn beacon_wf(m: BeaconModel) -> bool {
    &&& m.fields.len() == m.members.len()
    &&& forall|i: int| 0 <= i < m.members.len() ==> #[trigger] wf(m.members[i].ty)
    &&& forall|i: int, j: int|
        0 <= i < j < m.members.len() ==> #[trigger] m.members[i].id != #[trigger] m.members[j].id
    &&& forall|i: int|
        0 <= i < m.fields.len() && #[trigger] m.fields[i] is Some ==> has_type(
            m.fields[i]->Some_0,
            m.members[i].ty,
        )
    &&& (m.ts_def is Some <==> m.timestamp is Some)
    &&& m.ts_def is Some ==> wf(m.ts_def->Some_0.ty) && has_type(
        m.timestamp->Some_0,
        m.ts_def->Some_0.ty,
    )
}

/// The number of bytes that hold `n` presence bits.
pub open spec fn bitmap_len(n: nat) -> nat {
    (n + 7) / 8
}

/// The bitmap with the bits of the first `k` present fields set.
pub open spec fn presence_upto(fields: Seq<Option<Val>>, k: nat) -> Seq<u8>
    decreases k,
{
    if k == 0 {
        zeros(bitmap_len(fields.len()))
    } else {
        let b = presence_upto(fields, (k - 1) as nat);
        let i = k - 1;
        if fields[i] is Some {
            b.update(i / 8, b[i / 8] | (1u8 << ((i % 8) as u8)))
        } else {
            b
        }
    }
}

/// The presence bitmap: bit `i` is set exactly when field `i` is present.
pub open spec fn presence(fields: Seq<Option<Val>>) -> Seq<u8> {
    presence_upto(fields, fields.len())
}

/// The encodings of the present fields, in order.
pub open spec fn fields_enc(members: Seq<DefModel>, fields: Seq<Option<Val>>) -> Seq<u8>
    decreases fields.len(),
{
    if fields.len() == 0 {
        Seq::empty()
    } else {
        fields_enc(members.drop_last(), fields.drop_last()) + match fields.last() {
            Some(v) => enc(members.last().ty, v),
            None => Seq::empty(),
        }
    }
}

/// The encoding of the timestamp, if the beacon has one.
pub open spec fn timestamp_enc(m: BeaconModel) -> Seq<u8> {
    match (m.ts_def, m.timestamp) {
        (Some(d), Some(v)) => enc(d.ty, v),
        _ => Seq::empty(),
    }
}

/// Everything after the header: bitmap, timestamp, present fields.
pub open spec fn payload(m: BeaconModel) -> Seq<u8> {
    presence(m.fields) + timestamp_enc(m) + fields_enc(m.members, m.fields)
}

/// The two little-endian bytes of a CRC.
pub open spec fn crc_bytes(crc: u16) -> Seq<u8> {
    seq![(crc % 256) as u8, (crc / 256) as u8]
}

/// The frame of a beacon, with the given CRC in its header.
pub open spec fn frame(m: BeaconModel, crc: u16) -> Seq<u8> {
    seq![m.id] + crc_bytes(crc) + payload(m)
}

/// A codec failure as a frame failure.
pub open spec fn frame_error(e: CodecError) -> ParseError {
    match e {
        CodecError::OutOfMemory => ParseError::OutOfMemory,
        CodecError::BadEnumVariant => ParseError::BadEnumVariant,
    }
}

/// Decodes the timestamp, if the beacon has one.
pub open spec fn parse_timestamp(ts_def: Option<DefModel>, s: Seq<u8>) -> Result<(nat, Option<Val>), CodecError> {
    match ts_def {
        None => Ok((0, None)),
        Some(d) => match parse(d.ty, s) {
            Ok((n, v)) => Ok((n, Some(v))),
            Err(e) => Err(e),
        },
    }
}

/// Walks the fields: a field whose bit is set is decoded and moves on the
/// read position; a field whose bit is clear is absent and takes no bytes.
pub open spec fn parse_present(members: Seq<DefModel>, bits: Seq<u8>, s: Seq<u8>) -> Result<(nat, Seq<Option<Val>>), CodecError>
    decreases members.len(),
{
    if members.len() == 0 {
        Ok((0, Seq::empty()))
    } else {
        match parse_present(members.drop_last(), bits, s) {
            Ok((n, fs)) => if bit_at(bits, members.len() - 1) {
                match parse(members.last().ty, s.skip(n as int)) {
                    Ok((k, v)) => Ok((n + k, fs.push(Some(v)))),
                    Err(e) => Err(e),
                }
            } else {
                Ok((n, fs.push(None)))
            },
            Err(e) => Err(e),
        }
    }
}

/// Decodes frame `s` for beacon `m`, `crc` being the CRC computed over the
/// bytes after the header: the new timestamp and fields, or the failure.
pub open spec fn parse_frame(m: BeaconModel, s: Seq<u8>, crc: u16) -> Result<(Option<Val>, Seq<Option<Val>>), ParseError> {
    if s.len() < HEADER_LEN {
        Err(ParseError::OutOfMemory)
    } else if s[0] != m.id {
        Err(ParseError::WrongId)
    } else if s[1] as nat + 256 * (s[2] as nat) != crc as nat {
        Err(ParseError::BadCrc)
    } else if s.len() < HEADER_LEN + bitmap_len(m.members.len()) {
        Err(ParseError::OutOfMemory)
    } else {
        let nb = bitmap_len(m.members.len()) as int;
        let bits = s.subrange(3, 3 + nb);
        let rest = s.skip(3 + nb);
        match parse_timestamp(m.ts_def, rest) {
            Err(e) => Err(frame_error(e)),
            Ok((n, ts)) => match parse_present(m.members, bits, rest.skip(n as int)) {
                Err(e) => Err(frame_error(e)),
                Ok((_, fs)) => Ok((ts, fs)),
            },
        }
    }
}

/// The beacon after decoding.
pub open spec fn decoded(m: BeaconModel, r: (Option<Val>, Seq<Option<Val>>)) -> BeaconModel {
    BeaconModel { timestamp: r.0, fields: r.1, ..m }
}

/// The beacon with every field absent.
pub open spec fn flushed(m: BeaconModel) -> BeaconModel {
    BeaconModel { fields: Seq::new(m.fields.len(), |i: int| None), ..m }
}


// ---------------------------------------------------------------------------
// Laws of the frame

proof fn lemma_zero_bits(n: nat)
    ensures
        forall|i: int| 0 <= i < 8 * n ==> !#[trigger] bit_at(zeros(n), i),
{
    assert forall|i: int| 0 <= i < 8 * n implies !#[trigger] bit_at(zeros(n), i) by {
        let k = (i % 8) as u8;
        assert((0u8 >> k) & 1u8 == 0u8) by (bit_vector);
    }
}

proof fn lemma_bitmap_len(n: nat)
    ensures
        n <= 8 * bitmap_len(n),
        forall|i: int| 0 <= i < n ==> #[trigger] (i / 8) < bitmap_len(n),
{
    assert(n <= 8 * ((n + 7) / 8)) by (nonlinear_arith);
}

proof fn lemma_presence_upto(fields: Seq<Option<Val>>, k: nat)
    requires
        k <= fields.len(),
    ensures
        presence_upto(fields, k).len() == bitmap_len(fields.len()),
        forall|i: int|
            0 <= i < 8 * bitmap_len(fields.len()) ==> #[trigger] bit_at(presence_upto(fields, k), i)
                == (i < k && fields[i] is Some),
    decreases k,
{
    lemma_bitmap_len(fields.len());
    if k == 0 {
        lemma_zero_bits(bitmap_len(fields.len()));
    } else {
        let b = presence_upto(fields, (k - 1) as nat);
        lemma_presence_upto(fields, (k - 1) as nat);
        let i = k - 1;
        if fields[i] is Some {
            lemma_set_bit(b, i);
            let nb = b.update(i / 8, b[i / 8] | (1u8 << ((i % 8) as u8)));
            assert forall|j: int| 0 <= j < 8 * bitmap_len(fields.len()) implies #[trigger] bit_at(
                nb,
                j,
            ) == (j < k && fields[j] is Some) by {
                assert(bits_of(nb)[j] == bits_of(b).update(i, true)[j]);
            }
        }
    }
}

/// Bit `i` of the presence bitmap is set exactly when field `i` is present.
proof fn lemma_presence(fields: Seq<Option<Val>>)
    ensures
        presence(fields).len() == bitmap_len(fields.len()),
        forall|i: int|
            0 <= i < fields.len() ==> #[trigger] bit_at(presence(fields), i) == fields[i] is Some,
{
    lemma_presence_upto(fields, fields.len());
    lemma_bitmap_len(fields.len());
}

proof fn lemma_present_round_trip(
    members: Seq<DefModel>,
    fields: Seq<Option<Val>>,
    bits: Seq<u8>,
    rest: Seq<u8>,
)
    requires
        fields.len() == members.len(),
        forall|i: int| 0 <= i < fields.len() ==> #[trigger] bit_at(bits, i) == fields[i] is Some,
        forall|i: int| 0 <= i < members.len() ==> #[trigger] wf(members[i].ty),
        forall|i: int|
            0 <= i < fields.len() && #[trigger] fields[i] is Some ==> has_type(
                fields[i]->Some_0,
                members[i].ty,
            ),
    ensures
        parse_present(members, bits, fields_enc(members, fields) + rest) == Ok::<
            (nat, Seq<Option<Val>>),
            CodecError,
        >((fields_enc(members, fields).len(), fields)),
    decreases fields.len(),
{
    if fields.len() > 0 {
        let k = fields.len() - 1;
        let dm = members.drop_last();
        let df = fields.drop_last();
        let tail = match fields.last() {
            Some(v) => enc(members.last().ty, v),
            None => Seq::empty(),
        };
        let s = fields_enc(members, fields) + rest;
        assert(s =~= fields_enc(dm, df) + (tail + rest));
        assert(bit_at(bits, k) == fields[k] is Some);
        assert(wf(members[k].ty));
        lemma_present_round_trip(dm, df, bits, tail + rest);
        assert(s.skip(fields_enc(dm, df).len() as int) =~= tail + rest);
        if let Some(v) = fields.last() {
            assert(fields[k] is Some);
            lemma_round_trip(members.last().ty, v, rest);
        }
        assert(df.push(fields.last()) =~= fields);
    } else {
        assert(fields =~= Seq::<Option<Val>>::empty());
    }
}

/// Decoding a beacon's frame, with the same CRC function that made it,
/// gives back the beacon's timestamp, presence set and values.
pub proof fn lemma_frame_round_trip(m: BeaconModel, crc: spec_fn(Seq<u8>) -> u16)
    requires
        beacon_wf(m),
    ensures
        frame(m, crc(payload(m))).skip(HEADER_LEN as int) == payload(m),
        parse_frame(m, frame(m, crc(payload(m))), crc(frame(m, crc(payload(m))).skip(HEADER_LEN as int)))
            == Ok::<(Option<Val>, Seq<Option<Val>>), ParseError>((m.timestamp, m.fields)),
        decoded(m, (m.timestamp, m.fields)) == m,
{
    let c = crc(payload(m));
    let f = frame(m, c);
    let nb = bitmap_len(m.members.len()) as int;
    lemma_presence(m.fields);
    assert(f.skip(3) =~= payload(m));
    assert(f[1] as nat + 256 * (f[2] as nat) == c as nat);
    assert(f.subrange(3, 3 + nb) =~= presence(m.fields));
    let fe = fields_enc(m.members, m.fields);
    let rest = f.skip(3 + nb);
    assert(rest =~= timestamp_enc(m) + fe);
    match m.ts_def {
        Some(d) => {
            lemma_round_trip(d.ty, m.timestamp->Some_0, fe);
            assert(rest.skip(timestamp_enc(m).len() as int) =~= fe + Seq::empty());
        },
        None => {
            assert(rest.skip(0) =~= fe + Seq::empty());
        },
    }
    lemma_present_round_trip(m.members, m.fields, presence(m.fields), Seq::empty());
}

/// Changing a byte after the header of a beacon's frame, in a way that the
/// CRC function notices, makes the frame fail with `BadCrc`.
pub proof fn lemma_crc_integrity(m: BeaconModel, crc: spec_fn(Seq<u8>) -> u16, i: int, b: u8)
    requires
        HEADER_LEN <= i < frame(m, crc(payload(m))).len(),
        crc(frame(m, crc(payload(m))).update(i, b).skip(HEADER_LEN as int)) != crc(
            frame(m, crc(payload(m))).skip(HEADER_LEN as int),
        ),
    ensures
        parse_frame(
            m,
            frame(m, crc(payload(m))).update(i, b),
            crc(frame(m, crc(payload(m))).update(i, b).skip(HEADER_LEN as int)),
        ) == Err::<(Option<Val>, Seq<Option<Val>>), ParseError>(ParseError::BadCrc),
{
    let c = crc(payload(m));
    let f = frame(m, c);
    let g = f.update(i, b);
    assert(f.skip(3) =~= payload(m));
    assert(f[1] as nat + 256 * (f[2] as nat) == c as nat);
    assert(g[0] == f[0] && g[1] == f[1] && g[2] == f[2]);
}

/// A frame whose first byte is not the beacon's id fails with `WrongId`,
/// whatever else it holds.
pub proof fn lemma_wrong_id(m: BeaconModel, s: Seq<u8>, crc: u16)
    requires
        s.len() >= HEADER_LEN,
        s[0] != m.id,
    ensures
        parse_frame(m, s, crc) == Err::<(Option<Val>, Seq<Option<Val>>), ParseError>(
            ParseError::WrongId,
        ),
{
}

/// Flushing twice is flushing once, and leaves every field absent.
pub proof fn lemma_flush_idempotent(m: BeaconModel)
    ensures
        flushed(flushed(m)) == flushed(m),
        forall|i: int| 0 <= i < m.fields.len() ==> #[trigger] flushed(m).fields[i] is None,
{
    assert(flushed(flushed(m)).fields =~= flushed(m).fields);
}


/// Once a prefix of the fields fails to decode, the walk fails alike.
proof fn lemma_parse_present_err(members: Seq<DefModel>, k: int, bits: Seq<u8>, s: Seq<u8>)
    requires
        0 <= k <= members.len(),
        parse_present(members.take(k), bits, s) is Err,
    ensures
        parse_present(members, bits, s) == parse_present(members.take(k), bits, s),
    decreases members.len(),
{
    if k == members.len() {
        assert(members.take(k) =~= members);
    } else {
        assert(members.drop_last().take(k) =~= members.take(k));
        lemma_parse_present_err(members.drop_last(), k, bits, s);
    }
}

/// A successful walk yields one entry per field, each a value of the
/// field's type when present.
proof fn lemma_parse_present_sound(members: Seq<DefModel>, bits: Seq<u8>, s: Seq<u8>)
    ensures
        parse_present(members, bits, s) is Ok ==> {
            let fs = parse_present(members, bits, s)->Ok_0.1;
            &&& fs.len() == members.len()
            &&& forall|i: int|
                0 <= i < fs.len() && #[trigger] fs[i] is Some ==> has_type(
                    fs[i]->Some_0,
                    members[i].ty,
                )
        },
    decreases members.len(),
{
    if members.len() > 0 {
        let dm = members.drop_last();
        lemma_parse_present_sound(dm, bits, s);
        if let Ok((n, fs)) = parse_present(dm, bits, s) {
            lemma_parse_sound(members.last().ty, s.skip(n as int));
            if let Ok((_, all)) = parse_present(members, bits, s) {
                assert forall|i: int| 0 <= i < all.len() && #[trigger] all[i] is Some implies has_type(
                    all[i]->Some_0,
                    members[i].ty,
                ) by {
                    if i < all.len() - 1 {
                        assert(all[i] == fs[i]);
                        assert(dm[i] == members[i]);
                    }
                }
            }
        }
    }
}

// ---------------------------------------------------------------------------
// The beacon

/// A value's model, or absence.
pub open spec fn opt_val(f: Option<Value>) -> Option<Val> {
    match f {
        Some(v) => Some(v@),
        None => None,
    }
}

/// The models of the fields.
pub open spec fn field_models(fs: Seq<Option<Value>>) -> Seq<Option<Val>> {
    fs.map_values(|f: Option<Value>| opt_val(f))
}

/// The models of the field definitions.
pub open spec fn member_models(ms: Seq<&TelemetryDefinition>) -> Seq<DefModel> {
    ms.map_values(|d: &TelemetryDefinition| d@)
}

/// A codec failure as an insertion failure.
pub open spec fn insert_error(e: CodecError) -> InsertError {
    match e {
        CodecError::OutOfMemory => InsertError::OutOfMemory,
        CodecError::BadEnumVariant => InsertError::BadEnumVariant,
    }
}

fn to_parse_error(e: CodecError) -> (r: ParseError)
    ensures
        r == frame_error(e),
{
    match e {
        CodecError::OutOfMemory => ParseError::OutOfMemory,
        CodecError::BadEnumVariant => ParseError::BadEnumVariant,
    }
}

/// The number of bytes that hold `n` presence bits.
fn bitmap_len_of(n: usize) -> (r: usize)
    ensures
        r == bitmap_len(n as nat),
{
    if n % 8 == 0 {
        n / 8
    } else {
        n / 8 + 1
    }
}

/// A beacon over telemetry definitions of a registry.
pub struct Beacon<'a> {
    id: u8,
    ts_def: Option<&'a TelemetryDefinition>,
    members: Vec<&'a TelemetryDefinition>,
    timestamp: Option<Value>,
    fields: Vec<Option<Value>>,
}

impl<'a> View for Beacon<'a> {
    type V = BeaconModel;

    closed spec fn view(&self) -> BeaconModel {
        BeaconModel {
            id: self.id,
            ts_def: match self.ts_def {
                Some(d) => Some(d@),
                None => None,
            },
            members: member_models(self.members@),
            timestamp: opt_val(self.timestamp),
            fields: field_models(self.fields@),
        }
    }
}

impl<'a> Beacon<'a> {
    /// A beacon with the given id, timestamp definition and field
    /// definitions; every field absent and the timestamp zero.
    pub fn new(
        id: u8,
        timestamp: Option<&'a TelemetryDefinition>,
        members: Vec<&'a TelemetryDefinition>,
    ) -> (r: Result<Beacon<'a>, LayoutError>)
        ensures
            match r {
                Ok(b) => {
                    &&& b@.id == id
                    &&& b@.ts_def == (match timestamp {
                        Some(d) => Some(d@),
                        None => None::<DefModel>,
                    })
                    &&& b@.members == member_models(members@)
                    &&& b@.timestamp == (match timestamp {
                        Some(d) => Some(zero_val(d@.ty)),
                        None => None::<Val>,
                    })
                    &&& b@.fields == Seq::new(members@.len(), |i: int| None::<Val>)
                    &&& beacon_wf(b@)
                },
                Err(e) => e == LayoutError::DuplicateMember && exists|i: int, j: int|
                    0 <= i < j < members@.len() && #[trigger] members@[i]@.id
                        == #[trigger] members@[j]@.id,
            },
    {
        let ghost models = member_models(members@);
        let mut j: usize = 0;
        while j < members.len()
            invariant
                j <= members@.len(),
                models == member_models(members@),
                forall|a: int| 0 <= a < j ==> #[trigger] wf(models[a].ty),
                forall|a: int, b: int|
                    0 <= a < b < j ==> #[trigger] models[a].id != #[trigger] models[b].id,
            decreases members@.len() - j,
        {
            let _ = members[j].value_type();
            let mut i: usize = 0;
            while i < j
                invariant
                    i <= j < members@.len(),
                    models == member_models(members@),
                    forall|a: int| 0 <= a < i ==> #[trigger] models[a].id != models[j as int].id,
                decreases j - i,
            {
                if members[i].id() == members[j].id() {
                    assert(members@[i as int]@.id == members@[j as int]@.id);
                    return Err(LayoutError::DuplicateMember);
                }
                i = i + 1;
            }
            j = j + 1;
        }
        let ts_value = match timestamp {
            Some(d) => Some(d.value_type().zero_value()),
            None => None,
        };
        let mut fields: Vec<Option<Value>> = Vec::new();
        let mut k: usize = 0;
        while k < members.len()
            invariant
                k <= members@.len(),
                fields@.len() == k,
                forall|a: int| 0 <= a < k ==> #[trigger] fields@[a] is None,
            decreases members@.len() - k,
        {
            fields.push(None);
            k = k + 1;
        }
        let b = Beacon { id, ts_def: timestamp, members, timestamp: ts_value, fields };
        assert(b@.fields =~= Seq::new(b@.members.len(), |i: int| None::<Val>));
        Ok(b)
    }

    /// The beacon's id.
    pub fn id(&self) -> (r: u8)
        ensures
            r == self@.id,
    {
        self.id
    }

    /// The number of fields.
    pub fn field_count(&self) -> (r: usize)
        ensures
            r == self@.fields.len(),
    {
        self.fields.len()
    }

    /// The value of field `index`, if present.
    pub fn field(&self, index: usize) -> (r: Option<&Value>)
        requires
            index < self@.fields.len(),
        ensures
            match r {
                Some(v) => self@.fields[index as int] == Some(v@),
                None => self@.fields[index as int] is None,
            },
    {
        match &self.fields[index] {
            Some(v) => Some(v),
            None => None,
        }
    }

    /// The timestamp, if the beacon has one.
    pub fn timestamp(&self) -> (r: Option<&Value>)
        ensures
            match r {
                Some(v) => self@.timestamp == Some(v@),
                None => self@.timestamp is None,
            },
    {
        match &self.timestamp {
            Some(v) => Some(v),
            None => None,
        }
    }

    /// Makes field `index` present with `value`.
    pub fn set_field(&mut self, index: usize, value: Value) -> (r: Result<(), FieldError>)
        requires
            beacon_wf(old(self)@),
        ensures
            beacon_wf(final(self)@),
            index >= old(self)@.fields.len() ==> r == Err::<(), FieldError>(FieldError::NoSuchField)
                && final(self)@ == old(self)@,
            index < old(self)@.fields.len() && !has_type(value@, old(self)@.members[index as int].ty)
                ==> r == Err::<(), FieldError>(FieldError::WrongType) && final(self)@ == old(self)@,
            index < old(self)@.fields.len() && has_type(value@, old(self)@.members[index as int].ty)
                ==> r is Ok && final(self)@ == (BeaconModel {
                fields: old(self)@.fields.update(index as int, Some(value@)),
                ..old(self)@
            }),
    {
        if index >= self.fields.len() {
            return Err(FieldError::NoSuchField);
        }
        if !self.members[index].value_type().admits(&value) {
            return Err(FieldError::WrongType);
        }
        self.fields.set(index, Some(value));
        assert(self@.fields =~= old(self)@.fields.update(index as int, Some(value@)));
        Ok(())
    }

    /// Makes field `index` absent.
    pub fn clear_field(&mut self, index: usize) -> (r: Result<(), FieldError>)
        requires
            beacon_wf(old(self)@),
        ensures
            beacon_wf(final(self)@),
            index >= old(self)@.fields.len() ==> r == Err::<(), FieldError>(FieldError::NoSuchField)
                && final(self)@ == old(self)@,
            index < old(self)@.fields.len() ==> r is Ok && final(self)@ == (BeaconModel {
                fields: old(self)@.fields.update(index as int, None),
                ..old(self)@
            }),
    {
        if index >= self.fields.len() {
            return Err(FieldError::NoSuchField);
        }
        self.fields.set(index, None);
        assert(self@.fields =~= old(self)@.fields.update(index as int, None));
        Ok(())
    }

    /// Sets the timestamp.
    pub fn set_timestamp(&mut self, value: Value) -> (r: Result<(), FieldError>)
        requires
            beacon_wf(old(self)@),
        ensures
            beacon_wf(final(self)@),
            old(self)@.ts_def is None ==> r == Err::<(), FieldError>(FieldError::NoSuchField)
                && final(self)@ == old(self)@,
            old(self)@.ts_def is Some && !has_type(value@, old(self)@.ts_def->Some_0.ty) ==> r
                == Err::<(), FieldError>(FieldError::WrongType) && final(self)@ == old(self)@,
            old(self)@.ts_def is Some && has_type(value@, old(self)@.ts_def->Some_0.ty) ==> r is Ok
                && final(self)@ == (BeaconModel { timestamp: Some(value@), ..old(self)@ }),
    {
        match self.ts_def {
            None => Err(FieldError::NoSuchField),
            Some(d) => {
                if !d.value_type().admits(&value) {
                    return Err(FieldError::WrongType);
                }
                self.timestamp = Some(value);
                Ok(())
            },
        }
    }

    /// Makes every field absent; the timestamp stays.
    pub fn flush(&mut self)
        requires
            beacon_wf(old(self)@),
        ensures
            beacon_wf(final(self)@),
            final(self)@ == flushed(old(self)@),
    {
        let n = self.fields.len();
        let mut i: usize = 0;
        while i < n
            invariant
                i <= n == self.fields@.len(),
                self.members == old(self).members,
                self.id == old(self).id,
                self.ts_def == old(self).ts_def,
                self.timestamp == old(self).timestamp,
                forall|a: int| 0 <= a < i ==> #[trigger] self.fields@[a] is None,
            decreases n - i,
        {
            self.fields.set(i, None);
            i = i + 1;
        }
        assert(self@.fields =~= flushed(old(self)@).fields);
    }

    /// Appends everything that follows the header of the frame.
    fn payload_into(&self, out: &mut Vec<u8>)
        requires
            beacon_wf(self@),
        ensures
            final(out)@ == old(out)@ + payload(self@),
    {
        let ghost m = self@;
        let n = self.fields.len();
        let nb = bitmap_len_of(n);
        let mut bits: Vec<u8> = Vec::new();
        let mut z: usize = 0;
        while z < nb
            invariant
                z <= nb,
                bits@ == zeros(z as nat),
            decreases nb - z,
        {
            bits.push(0u8);
            z = z + 1;
            assert(bits@ =~= zeros(z as nat));
        }
        proof {
            lemma_bitmap_len(n as nat);
        }
        let mut i: usize = 0;
        while i < n
            invariant
                i <= n == self.fields@.len(),
                nb == bitmap_len(n as nat),
                n <= 8 * nb,
                m == self@,
                bits@ == presence_upto(m.fields, i as nat),
                bits@.len() == nb,
            decreases n - i,
        {
            if self.fields[i].is_some() {
                assert(m.fields[i as int] is Some);
                set_bit(&mut bits, i);
            } else {
                assert(m.fields[i as int] is None);
            }
            i = i + 1;
        }
        let ghost start = out@;
        out.append(&mut bits);
        match (&self.ts_def, &self.timestamp) {
            (Some(d), Some(v)) => {
                let mut e = d.value_type().encode(v);
                out.append(&mut e);
            },
            _ => {},
        }
        assert(out@ =~= start + presence(m.fields) + timestamp_enc(m));
        let ghost mid = out@;
        let mut i: usize = 0;
        assert(m.members.take(0) =~= Seq::<DefModel>::empty());
        assert(m.fields.take(0) =~= Seq::<Option<Val>>::empty());
        while i < n
            invariant
                i <= n == self.fields@.len() == self.members@.len(),
                m == self@,
                beacon_wf(m),
                out@ == mid + fields_enc(m.members.take(i as int), m.fields.take(i as int)),
            decreases n - i,
        {
            let ghost before = out@;
            let ghost tail = match m.fields[i as int] {
                Some(v) => enc(m.members[i as int].ty, v),
                None => Seq::empty(),
            };
            match &self.fields[i] {
                Some(v) => {
                    assert(m.fields[i as int] == Some(v@));
                    let mut e = self.members[i].value_type().encode(v);
                    out.append(&mut e);
                },
                None => {},
            }
            assert(out@ =~= before + tail);
            assert(m.members.take(i + 1).drop_last() =~= m.members.take(i as int));
            assert(m.fields.take(i + 1).drop_last() =~= m.fields.take(i as int));
            i = i + 1;
        }
        assert(m.members.take(n as int) =~= m.members);
        assert(m.fields.take(n as int) =~= m.fields);
        assert(out@ =~= start + payload(m));
    }

    /// The frame of this beacon: id, CRC of the bytes after the header as
    /// `crc` computes it, then the payload.
    pub fn encode<F: Fn(&[u8]) -> u16>(&self, crc: F) -> (r: Vec<u8>)
        requires
            beacon_wf(self@),
            forall|s: &[u8]| #[trigger] crc.requires((s,)),
        ensures
            exists|s: &[u8], c: u16|
                s@ == payload(self@) && #[trigger] crc.ensures((s,), c) && r@ == frame(self@, c),
    {
        let mut out: Vec<u8> = Vec::new();
        out.push(self.id);
        out.push(0u8);
        out.push(0u8);
        self.payload_into(&mut out);
        let len = out.len();
        let body = slice_subrange(out.as_slice(), HEADER_LEN, len);
        assert(body@ =~= payload(self@));
        let c = crc(body);
        out.set(1, (c % 256) as u8);
        out.set(2, (c / 256) as u8);
        assert(out@ =~= frame(self@, c));
        out
    }

    /// Takes in frame `bytes`, `crc` being the CRC computed over the bytes
    /// after its header. On any failure the beacon stays as it was.
    pub fn decode_with_crc(&mut self, bytes: &[u8], crc: u16) -> (r: Result<(), ParseError>)
        requires
            beacon_wf(old(self)@),
        ensures
            beacon_wf(final(self)@),
            match parse_frame(old(self)@, bytes@, crc) {
                Ok(res) => r is Ok && final(self)@ == decoded(old(self)@, res),
                Err(e) => r == Err::<(), ParseError>(e) && final(self)@ == old(self)@,
            },
    {
        let ghost m = self@;
        let len = bytes.len();
        if len < HEADER_LEN {
            return Err(ParseError::OutOfMemory);
        }
        if bytes[0] != self.id {
            return Err(ParseError::WrongId);
        }
        let stored = bytes[1] as u16 + (bytes[2] as u16) * 256;
        if stored != crc {
            return Err(ParseError::BadCrc);
        }
        let n = self.members.len();
        let nb = bitmap_len_of(n);
        if len - HEADER_LEN < nb {
            return Err(ParseError::OutOfMemory);
        }
        let bits = slice_subrange(bytes, HEADER_LEN, HEADER_LEN + nb);
        let ghost rest = bytes@.skip(3 + nb);
        let mut pos: usize = HEADER_LEN + nb;
        let mut ts: Option<Value> = None;
        match self.ts_def {
            None => {},
            Some(d) => {
                assert(rest =~= bytes@.skip(pos as int));
                proof {
                    lemma_parse_sound(d@.ty, bytes@.skip(pos as int));
                }
                match decode_value(d.value_type(), bytes, pos) {
                    Err(e) => {
                        return Err(to_parse_error(e));
                    },
                    Ok((k, v)) => {
                        pos = pos + k;
                        ts = Some(v);
                    },
                }
            },
        }
        assert(parse_timestamp(m.ts_def, rest) is Ok);
        assert(parse_timestamp(m.ts_def, rest)->Ok_0 == (((pos - 3 - nb) as nat, opt_val(ts))));
        assert(rest.skip(pos - 3 - nb) =~= bytes@.skip(pos as int));
        let ghost fstart = pos;
        let mut fields: Vec<Option<Value>> = Vec::new();
        let mut i: usize = 0;
        assert(m.members.take(0) =~= Seq::<DefModel>::empty());
        assert(field_models(fields@) =~= Seq::<Option<Val>>::empty());
        while i < n
            invariant
                i <= n == self.members@.len(),
                m == self@,
                beacon_wf(m),
                fstart <= pos <= bytes@.len() == len,
                3 + nb <= fstart,
                bits@ == bytes@.subrange(3, 3 + nb),
                bytes@[0] == m.id,
                bytes@[1] as nat + 256 * (bytes@[2] as nat) == crc as nat,
                parse_timestamp(m.ts_def, bytes@.skip(3 + nb)) == Ok::<(nat, Option<Val>), CodecError>(
                    ((fstart - 3 - nb) as nat, opt_val(ts)),
                ),
                bytes@.skip(3 + nb).skip(fstart - 3 - nb) == bytes@.skip(fstart as int),
                nb == bitmap_len(n as nat),
                parse_present(m.members.take(i as int), bits@, bytes@.skip(fstart as int)) == Ok::<
                    (nat, Seq<Option<Val>>),
                    CodecError,
                >(((pos - fstart) as nat, field_models(fields@))),
            decreases n - i,
        {
            let ghost before = fields@;
            let ghost src = bytes@.skip(fstart as int);
            assert(m.members.take(i + 1).drop_last() =~= m.members.take(i as int));
            assert(m.members.take(i + 1).last() == m.members[i as int]);
            assert(src.skip(pos - fstart) =~= bytes@.skip(pos as int));
            proof {
                lemma_bitmap_len(n as nat);
            }
            assert(bits@.len() == nb);
            if get_bit(bits, i) {
                proof {
                    lemma_parse_sound(m.members[i as int].ty, bytes@.skip(pos as int));
                }
                match decode_value(self.members[i].value_type(), bytes, pos) {
                    Err(e) => {
                        proof {
                            lemma_parse_present_err(m.members, i + 1, bits@, src);
                            assert(parse_frame(m, bytes@, crc) == Err::<
                                (Option<Val>, Seq<Option<Val>>),
                                ParseError,
                            >(frame_error(e)));
                        }
                        return Err(to_parse_error(e));
                    },
                    Ok((k, v)) => {
                        fields.push(Some(v));
                        assert(field_models(fields@) =~= field_models(before).push(Some(v@)));
                        pos = pos + k;
                    },
                }
            } else {
                fields.push(None);
                assert(field_models(fields@) =~= field_models(before).push(None));
            }
            i = i + 1;
        }
        assert(m.members.take(n as int) =~= m.members);
        proof {
            lemma_parse_present_sound(m.members, bits@, bytes@.skip(fstart as int));
        }
        self.timestamp = ts;
        self.fields = fields;
        Ok(())
    }

    /// Takes in frame `bytes`, checking it with `crc`. On any failure the
    /// beacon stays as it was.
    pub fn decode<F: Fn(&[u8]) -> u16>(&mut self, bytes: &[u8], crc: F) -> (r: Result<(), ParseError>)
        requires
            beacon_wf(old(self)@),
            forall|s: &[u8]| #[trigger] crc.requires((s,)),
        ensures
            beacon_wf(final(self)@),
            bytes@.len() < HEADER_LEN ==> r == Err::<(), ParseError>(ParseError::OutOfMemory)
                && final(self)@ == old(self)@,
            bytes@.len() >= HEADER_LEN && bytes@[0] != old(self)@.id ==> r == Err::<(), ParseError>(
                ParseError::WrongId,
            ) && final(self)@ == old(self)@,
            bytes@.len() >= HEADER_LEN && bytes@[0] == old(self)@.id ==> exists|s: &[u8], c: u16|
                s@ == bytes@.skip(HEADER_LEN as int) && #[trigger] crc.ensures((s,), c) && match parse_frame(
                    old(self)@,
                    bytes@,
                    c,
                ) {
                    Ok(res) => r is Ok && final(self)@ == decoded(old(self)@, res),
                    Err(e) => r == Err::<(), ParseError>(e) && final(self)@ == old(self)@,
                },
    {
        let len = bytes.len();
        if len < HEADER_LEN {
            return Err(ParseError::OutOfMemory);
        }
        if bytes[0] != self.id {
            return Err(ParseError::WrongId);
        }
        let body = slice_subrange(bytes, HEADER_LEN, len);
        let c = crc(body);
        self.decode_with_crc(bytes, c)
    }

    /// Decodes `bytes` as the value of the field whose definition has the
    /// id of `definition`, and makes that field present with it; every other
    /// field stays as it was.
    pub fn insert_slice(&mut self, definition: &TelemetryDefinition, bytes: &[u8]) -> (r: Result<(), InsertError>)
        requires
            beacon_wf(old(self)@),
        ensures
            beacon_wf(final(self)@),
            match find_id(old(self)@.members, definition@.id) {
                None => r == Err::<(), InsertError>(InsertError::DefNotInBeacon) && final(self)@
                    == old(self)@,
                Some(k) => match parse(old(self)@.members[k].ty, bytes@) {
                    Ok((_, v)) => r is Ok && final(self)@ == (BeaconModel {
                        fields: old(self)@.fields.update(k, Some(v)),
                        ..old(self)@
                    }),
                    Err(e) => r == Err::<(), InsertError>(insert_error(e)) && final(self)@ == old(
                        self,
                    )@,
                },
            },
    {
        let ghost m = self@;
        let id = definition.id();
        proof {
            lemma_find_id(m.members, id as nat);
        }
        let n = self.members.len();
        let mut k: usize = 0;
        while k < n && self.members[k].id() != id
            invariant
                k <= n == self.members@.len(),
                m == self@,
                forall|j: int| 0 <= j < k ==> #[trigger] m.members[j].id != id as nat,
            decreases n - k,
        {
            k = k + 1;
        }
        if k == n {
            return Err(InsertError::DefNotInBeacon);
        }
        assert(m.members[k as int].id == id as nat);
        assert(bytes@.skip(0) =~= bytes@);
        proof {
            lemma_parse_sound(m.members[k as int].ty, bytes@);
        }
        match decode_value(self.members[k].value_type(), bytes, 0) {
            Err(e) => match e {
                CodecError::OutOfMemory => Err(InsertError::OutOfMemory),
                CodecError::BadEnumVariant => Err(InsertError::BadEnumVariant),
            },
            Ok((_, v)) => {
                self.fields.set(k, Some(v));
                assert(self@.fields =~= m.fields.update(k as int, Some(v@)));
                Ok(())
            },
        }
    }

    /// The encoding of the value of the field whose definition has the id
    /// of `definition`: `None` when that field is absent.
    pub fn get_slice(&self, definition: &TelemetryDefinition) -> (r: Result<Option<Vec<u8>>, NotFound>)
        requires
            beacon_wf(self@),
        ensures
            match find_id(self@.members, definition@.id) {
                None => r is Err,
                Some(k) => match self@.fields[k] {
                    None => r == Ok::<Option<Vec<u8>>, NotFound>(None),
                    Some(v) => r is Ok && r->Ok_0 is Some && r->Ok_0->Some_0@ == enc(
                        self@.members[k].ty,
                        v,
                    ),
                },
            },
    {
        let ghost m = self@;
        let id = definition.id();
        proof {
            lemma_find_id(m.members, id as nat);
        }
        let n = self.members.len();
        let mut k: usize = 0;
        while k < n && self.members[k].id() != id
            invariant
                k <= n == self.members@.len(),
                m == self@,
                forall|j: int| 0 <= j < k ==> #[trigger] m.members[j].id != id as nat,
            decreases n - k,
        {
            k = k + 1;
        }
        if k == n {
            return Err(NotFound);
        }
        assert(m.members[k as int].id == id as nat);
        match &self.fields[k] {
            None => Ok(None),
            Some(v) => {
                assert(m.fields[k as int] == Some(v@));
                Ok(Some(self.members[k].value_type().encode(v)))
            },
        }
    }
}

} // verus!
