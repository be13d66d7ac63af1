//! The value codec: type descriptors, values, and their byte-exact encoding.
//!
//! Every value type has a statically known `BYTE_SIZE` (here [`size`]). Scalars
//! are little-endian bit patterns of their native width; arrays and structs are
//! the positional concatenation of their elements; an optional value is a tag
//! byte, 1 followed by the value when present, 0 followed by as many zero
//! bytes as the value type's size when absent; an enum is a tag byte followed
//! by the chosen variant's fields, and takes no more than that.
use vstd::prelude::*;

verus! {

/// The primitive scalar types. Floats travel as their IEEE-754 bit pattern.
#[derive(Clone, Copy, Debug, PartialEq, Eq)]
pub enum Primitive {
    U8,
    U16,
    U32,
    U64,
    U128,
    I8,
    I16,
    I32,
    I64,
    I128,
    F32,
    F64,
}

impl Primitive {
    /// The width in bytes.
    pub open spec fn spec_width(self) -> nat {
        match self {
            Primitive::U8 | Primitive::I8 => 1,
            Primitive::U16 | Primitive::I16 => 2,
            Primitive::U32 | Primitive::I32 | Primitive::F32 => 4,
            Primitive::U64 | Primitive::I64 | Primitive::F64 => 8,
            Primitive::U128 | Primitive::I128 => 16,
        }
    }

    /// The width in bytes.
    pub fn width(&self) -> (r: usize)
        ensures
            r == self.spec_width(),
    {
        match self {
            Primitive::U8 | Primitive::I8 => 1,
            Primitive::U16 | Primitive::I16 => 2,
            Primitive::U32 | Primitive::I32 | Primitive::F32 => 4,
            Primitive::U64 | Primitive::I64 | Primitive::F64 => 8,
            Primitive::U128 | Primitive::I128 => 16,
        }
    }
}

/// The description of a value type.
#[derive(Debug, PartialEq, Eq)]
pub enum TypeDesc {
    /// A primitive scalar.
    Scalar(Primitive),
    /// A fixed array of the given number of elements.
    Array(Box<TypeDesc>, usize),
    /// An ordered list of fields.
    Struct(Vec<TypeDesc>),
    /// A value that may be absent.
    Optional(Box<TypeDesc>),
    /// A tagged union; each variant is an ordered list of fields.
    Enum(Vec<Vec<TypeDesc>>),
}

/// A value as the codec sees it.
#[derive(Debug, PartialEq, Eq)]
pub enum Value {
    /// The bit pattern of a scalar (two's complement for signed integers,
    /// IEEE-754 for floats).
    Scalar(u128),
    /// The elements of an array, or the fields of a struct, in order.
    List(Vec<Value>),
    /// An optional value that is absent.
    Absent,
    /// An optional value that is present.
    Present(Box<Value>),
    /// The variant of an enum with the given tag, and its fields in order.
    Variant(u8, Vec<Value>),
}

/// The mathematical model of a [`Value`].
pub enum Val {
    Scalar(nat),
    List(Seq<Val>),
    Absent,
    Present(Box<Val>),
    Variant(nat, Seq<Val>),
}

/// The codec's failures.
#[derive(Clone, Copy, Debug, PartialEq, Eq)]
pub enum CodecError {
    /// The buffer is shorter than the type needs at that position.
    OutOfMemory,
    /// A tag byte names no declared variant.
    BadEnumVariant,
}

// ---------------------------------------------------------------------------
// Sizes and well-formedness

/// `256` to the power `w`.
pub open spec fn pow256(w: nat) -> nat
    decreases w,
{
    if w == 0 {
        1
    } else {
        256 * pow256((w - 1) as nat)
    }
}

/// The `BYTE_SIZE` of a type: the most bytes a value of it takes.
pub open spec fn size(t: TypeDesc) -> nat
    decreases t,
{
    match t {
        TypeDesc::Scalar(p) => p.spec_width(),
        TypeDesc::Array(e, n) => (n as nat) * size(*e),
        TypeDesc::Struct(fs) => sizes_sum(fs@),
        TypeDesc::Optional(e) => 1 + size(*e),
        TypeDesc::Enum(vs) => variants_max(vs@),
    }
}

/// The sum of the sizes of a list of fields.
pub open spec fn sizes_sum(ts: Seq<TypeDesc>) -> nat
    decreases ts,
{
    if ts.len() == 0 {
        0
    } else {
        sizes_sum(ts.drop_last()) + size(ts.last())
    }
}

/// The largest `1 + sizes_sum(fields)` over the variants (0 when there are none).
pub open spec fn variants_max(vs: Seq<Vec<TypeDesc>>) -> nat
    decreases vs,
{
    if vs.len() == 0 {
        0
    } else {
        let a = variants_max(vs.drop_last());
        let b = 1 + sizes_sum(vs.last()@);
        if a >= b { a } else { b }
    }
}

/// A type whose every part has a size that fits in `usize`, and whose enums
/// have between 1 and 256 variants.
pub open spec fn wf(t: TypeDesc) -> bool
    decreases t,
{
    &&& size(t) <= usize::MAX
    &&& match t {
        TypeDesc::Scalar(_) => true,
        TypeDesc::Array(e, _) => wf(*e),
        TypeDesc::Struct(fs) => all_wf(fs@),
        TypeDesc::Optional(e) => wf(*e),
        TypeDesc::Enum(vs) => 1 <= vs@.len() <= 256 && variants_wf(vs@),
    }
}

/// Every type of the list is well-formed.
pub open spec fn all_wf(ts: Seq<TypeDesc>) -> bool
    decreases ts,
{
    ts.len() == 0 || (all_wf(ts.drop_last()) && wf(ts.last()))
}

/// Every field of every variant is well-formed.
pub open spec fn variants_wf(vs: Seq<Vec<TypeDesc>>) -> bool
    decreases vs,
{
    vs.len() == 0 || (variants_wf(vs.drop_last()) && all_wf(vs.last()@))
}

// ---------------------------------------------------------------------------
// Models of values

/// The model of a value.
pub open spec fn val_of(v: Value) -> Val
    decreases v,
{
    match v {
        Value::Scalar(b) => Val::Scalar(b as nat),
        Value::List(xs) => Val::List(vals_of(xs@)),
        Value::Absent => Val::Absent,
        Value::Present(x) => Val::Present(Box::new(val_of(*x))),
        Value::Variant(tag, xs) => Val::Variant(tag as nat, vals_of(xs@)),
    }
}

/// The models of a list of values.
pub open spec fn vals_of(xs: Seq<Value>) -> Seq<Val>
    decreases xs,
{
    if xs.len() == 0 {
        Seq::empty()
    } else {
        vals_of(xs.drop_last()).push(val_of(xs.last()))
    }
}

impl View for Value {
    type V = Val;

    open spec fn view(&self) -> Val {
        val_of(*self)
    }
}

/// Whether `v` is a value of type `t`.
pub open spec fn has_type(v: Val, t: TypeDesc) -> bool
    decreases v,
{
    match v {
        Val::Scalar(b) => match t {
            TypeDesc::Scalar(p) => b < pow256(p.spec_width()),
            _ => false,
        },
        Val::List(xs) => match t {
            TypeDesc::Array(e, n) => xs.len() == n && list_has_types(xs, repeat(*e, xs.len())),
            TypeDesc::Struct(fs) => xs.len() == fs@.len() && list_has_types(xs, fs@),
            _ => false,
        },
        Val::Absent => t is Optional,
        Val::Present(x) => match t {
            TypeDesc::Optional(e) => has_type(*x, *e),
            _ => false,
        },
        Val::Variant(tag, xs) => match t {
            TypeDesc::Enum(vs) => tag < vs@.len() && xs.len() == vs@[tag as int]@.len()
                && list_has_types(xs, vs@[tag as int]@),
            _ => false,
        },
    }
}

/// `n` copies of type `e`.
pub open spec fn repeat(e: TypeDesc, n: nat) -> Seq<TypeDesc> {
    Seq::new(n, |i: int| e)
}

/// Whether each value of `xs` has the type at the same place in `ts`.
pub open spec fn list_has_types(xs: Seq<Val>, ts: Seq<TypeDesc>) -> bool
    decreases xs,
{
    xs.len() == 0 || (list_has_types(xs.drop_last(), ts.drop_last()) && has_type(
        xs.last(),
        ts.last(),
    ))
}

// ---------------------------------------------------------------------------
// Encoding

/// The `w` little-endian bytes of `n`.
pub open spec fn le_bytes(n: nat, w: nat) -> Seq<u8>
    decreases w,
{
    if w == 0 {
        Seq::empty()
    } else {
        seq![(n % 256) as u8] + le_bytes(n / 256, (w - 1) as nat)
    }
}

/// The number whose little-endian bytes are `s`.
pub open spec fn le_value(s: Seq<u8>) -> nat
    decreases s.len(),
{
    if s.len() == 0 {
        0
    } else {
        s[0] as nat + 256 * le_value(s.subrange(1, s.len() as int))
    }
}

/// `n` zero bytes.
pub open spec fn zeros(n: nat) -> Seq<u8> {
    Seq::new(n, |i: int| 0u8)
}

/// The encoding of value `v` of type `t`.
pub open spec fn enc(t: TypeDesc, v: Val) -> Seq<u8>
    decreases v,
{
    match v {
        Val::Scalar(b) => match t {
            TypeDesc::Scalar(p) => le_bytes(b, p.spec_width()),
            _ => Seq::empty(),
        },
        Val::List(xs) => match t {
            TypeDesc::Array(e, _) => enc_list(repeat(*e, xs.len()), xs),
            TypeDesc::Struct(fs) => enc_list(fs@, xs),
            _ => Seq::empty(),
        },
        Val::Absent => match t {
            TypeDesc::Optional(e) => seq![0u8] + zeros(size(*e)),
            _ => Seq::empty(),
        },
        Val::Present(x) => match t {
            TypeDesc::Optional(e) => seq![1u8] + enc(*e, *x),
            _ => Seq::empty(),
        },
        Val::Variant(tag, xs) => match t {
            TypeDesc::Enum(vs) => seq![tag as u8] + enc_list(vs@[tag as int]@, xs),
            _ => Seq::empty(),
        },
    }
}

/// The concatenated encodings of values `xs` of types `ts`.
pub open spec fn enc_list(ts: Seq<TypeDesc>, xs: Seq<Val>) -> Seq<u8>
    decreases xs,
{
    if xs.len() == 0 {
        Seq::empty()
    } else {
        enc_list(ts.drop_last(), xs.drop_last()) + enc(ts.last(), xs.last())
    }
}

// ---------------------------------------------------------------------------
// Decoding

/// Decodes a value of type `t` from the front of `s`: the number of bytes
/// consumed and the value, or the failure.
pub open spec fn parse(t: TypeDesc, s: Seq<u8>) -> Result<(nat, Val), CodecError>
    decreases t, 0nat,
{
    match t {
        TypeDesc::Scalar(p) => {
            if s.len() < p.spec_width() {
                Err(CodecError::OutOfMemory)
            } else {
                Ok((p.spec_width(), Val::Scalar(le_value(s.take(p.spec_width() as int)))))
            }
        },
        TypeDesc::Array(e, n) => match parse_rep(*e, n as nat, s) {
            Ok((k, xs)) => Ok((k, Val::List(xs))),
            Err(err) => Err(err),
        },
        TypeDesc::Struct(fs) => match parse_list(fs@, s) {
            Ok((k, xs)) => Ok((k, Val::List(xs))),
            Err(err) => Err(err),
        },
        TypeDesc::Optional(e) => {
            if s.len() < 1 {
                Err(CodecError::OutOfMemory)
            } else if s[0] == 0 {
                if s.len() < 1 + size(*e) {
                    Err(CodecError::OutOfMemory)
                } else {
                    Ok((1 + size(*e), Val::Absent))
                }
            } else if s[0] == 1 {
                match parse(*e, s.skip(1)) {
                    Ok((k, x)) => Ok((1 + k, Val::Present(Box::new(x)))),
                    Err(err) => Err(err),
                }
            } else {
                Err(CodecError::BadEnumVariant)
            }
        },
        TypeDesc::Enum(vs) => {
            if s.len() < 1 {
                Err(CodecError::OutOfMemory)
            } else if s[0] >= vs@.len() {
                Err(CodecError::BadEnumVariant)
            } else {
                match parse_list(vs@[s[0] as int]@, s.skip(1)) {
                    Ok((k, xs)) => Ok((1 + k, Val::Variant(s[0] as nat, xs))),
                    Err(err) => Err(err),
                }
            }
        },
    }
}

/// Decodes `k` values of type `e`, one after the other.
pub open spec fn parse_rep(e: TypeDesc, k: nat, s: Seq<u8>) -> Result<(nat, Seq<Val>), CodecError>
    decreases e, k,
{
    if k == 0 {
        Ok((0, Seq::empty()))
    } else {
        match parse_rep(e, (k - 1) as nat, s) {
            Ok((n, xs)) => match parse(e, s.skip(n as int)) {
                Ok((m, x)) => Ok((n + m, xs.push(x))),
                Err(err) => Err(err),
            },
            Err(err) => Err(err),
        }
    }
}

/// Decodes values of types `ts`, one after the other.
pub open spec fn parse_list(ts: Seq<TypeDesc>, s: Seq<u8>) -> Result<(nat, Seq<Val>), CodecError>
    decreases ts, 0nat,
{
    if ts.len() == 0 {
        Ok((0, Seq::empty()))
    } else {
        match parse_list(ts.drop_last(), s) {
            Ok((n, xs)) => match parse(ts.last(), s.skip(n as int)) {
                Ok((m, x)) => Ok((n + m, xs.push(x))),
                Err(err) => Err(err),
            },
            Err(err) => Err(err),
        }
    }
}


// ---------------------------------------------------------------------------
// Little-endian scalars

proof fn lemma_pow256_mono(a: nat, b: nat)
    requires
        a <= b,
    ensures
        pow256(a) <= pow256(b),
    decreases b,
{
    if a < b {
        lemma_pow256_mono(a, (b - 1) as nat);
    }
}

proof fn lemma_pow256_16()
    ensures
        pow256(16) == 0x1_0000_0000_0000_0000_0000_0000_0000_0000,
{
    reveal_with_fuel(pow256, 17);
}

proof fn lemma_le_bytes_len(n: nat, w: nat)
    ensures
        le_bytes(n, w).len() == w,
    decreases w,
{
    if w > 0 {
        lemma_le_bytes_len(n / 256, (w - 1) as nat);
    }
}

proof fn lemma_le_round_trip(n: nat, w: nat)
    requires
        n < pow256(w),
    ensures
        le_value(le_bytes(n, w)) == n,
    decreases w,
{
    if w > 0 {
        let s = le_bytes(n, w);
        lemma_le_round_trip(n / 256, (w - 1) as nat);
        assert(s.subrange(1, s.len() as int) =~= le_bytes(n / 256, (w - 1) as nat));
    }
}

proof fn lemma_le_value_bound(s: Seq<u8>)
    ensures
        le_value(s) < pow256(s.len()),
    decreases s.len(),
{
    if s.len() > 0 {
        let r = s.subrange(1, s.len() as int);
        lemma_le_value_bound(r);
        assert(le_value(s) == s[0] as nat + 256 * le_value(r));
        assert(pow256(s.len()) == 256 * pow256(r.len()));
        assert(s[0] as nat + 256 * le_value(r) < 256 * pow256(r.len())) by (nonlinear_arith)
            requires
                s[0] < 256,
                le_value(r) < pow256(r.len()),
        ;
    }
}

/// Appends the `w` little-endian bytes of `b`.
fn write_scalar(b: u128, w: usize, out: &mut Vec<u8>)
    requires
        w <= 16,
        b < pow256(w as nat),
    ensures
        final(out)@ == old(out)@ + le_bytes(b as nat, w as nat),
{
    let mut x: u128 = b;
    let mut i: usize = 0;
    while i < w
        invariant
            i <= w,
            out@ + le_bytes(x as nat, (w - i) as nat) == old(out)@ + le_bytes(b as nat, w as nat),
        decreases w - i,
    {
        let ghost before = out@;
        out.push((x % 256) as u8);
        proof {
            let k = (w - i) as nat;
            assert(le_bytes(x as nat, k) == seq![(x as nat % 256) as u8] + le_bytes(
                x as nat / 256,
                (k - 1) as nat,
            ));
            assert(out@ + le_bytes((x / 256) as nat, (k - 1) as nat) =~= before + le_bytes(
                x as nat,
                k,
            ));
        }
        x = x / 256;
        i = i + 1;
    }
}

/// Reads the number whose `w` little-endian bytes start at `pos`.
fn read_scalar(s: &[u8], pos: usize, w: usize) -> (r: u128)
    requires
        w <= 16,
        pos + w <= s@.len(),
    ensures
        r as nat == le_value(s@.subrange(pos as int, pos + w)),
{
    let mut acc: u128 = 0;
    let mut i: usize = w;
    let len = s.len();
    proof {
        lemma_pow256_16();
    }
    while i > 0
        invariant
            i <= w <= 16,
            pos + w <= s@.len() == len,
            pow256(16) == 0x1_0000_0000_0000_0000_0000_0000_0000_0000,
            acc as nat == le_value(s@.subrange(pos + i, pos + w)),
        decreases i,
    {
        let ghost tail = s@.subrange(pos + i, pos + w);
        i = i - 1;
        let ghost sub = s@.subrange(pos + i, pos + w);
        proof {
            lemma_le_value_bound(tail);
            lemma_pow256_mono((w - i - 1) as nat, 15);
            assert(sub.subrange(1, sub.len() as int) =~= tail);
            assert(pow256(16) == 256 * pow256(15));
            assert(acc * 256 + s@[pos + i] < 256 * pow256(15)) by (nonlinear_arith)
                requires
                    acc < pow256(15),
                    s@[pos + i] < 256,
            ;
        }
        acc = acc * 256 + s[pos + i] as u128;
    }
    acc
}

/// Whether `b < pow256(w)`.
fn scalar_fits(b: u128, w: usize) -> (r: bool)
    requires
        w <= 16,
    ensures
        r == (b < pow256(w as nat)),
{
    if w >= 16 {
        proof {
            lemma_pow256_16();
        }
        return true;
    }
    let mut p: u128 = 1;
    let mut i: usize = 0;
    while i < w
        invariant
            i <= w < 16,
            p == pow256(i as nat),
        decreases w - i,
    {
        proof {
            lemma_pow256_mono((i + 1) as nat, 15);
            lemma_pow256_16();
        }
        p = p * 256;
        i = i + 1;
    }
    b < p
}


// ---------------------------------------------------------------------------
// Facts about the models

proof fn lemma_vals_of(xs: Seq<Value>)
    ensures
        vals_of(xs).len() == xs.len(),
        forall|i: int| 0 <= i < xs.len() ==> #[trigger] vals_of(xs)[i] == val_of(xs[i]),
    decreases xs.len(),
{
    if xs.len() > 0 {
        lemma_vals_of(xs.drop_last());
    }
}

proof fn lemma_all_wf(ts: Seq<TypeDesc>)
    ensures
        all_wf(ts) <==> forall|i: int| 0 <= i < ts.len() ==> #[trigger] wf(ts[i]),
    decreases ts.len(),
{
    if ts.len() > 0 {
        let dl = ts.drop_last();
        lemma_all_wf(dl);
        if forall|i: int| 0 <= i < ts.len() ==> #[trigger] wf(ts[i]) {
            assert forall|i: int| 0 <= i < dl.len() implies #[trigger] wf(dl[i]) by {
                assert(dl[i] == ts[i]);
            }
            assert(wf(ts[ts.len() - 1]));
        }
        if all_wf(ts) {
            assert forall|i: int| 0 <= i < ts.len() implies #[trigger] wf(ts[i]) by {
                if i < ts.len() - 1 {
                    assert(dl[i] == ts[i]);
                }
            }
        }
    }
}

proof fn lemma_variants_wf(vs: Seq<Vec<TypeDesc>>)
    ensures
        variants_wf(vs) <==> forall|i: int| 0 <= i < vs.len() ==> #[trigger] all_wf(vs[i]@),
    decreases vs.len(),
{
    if vs.len() > 0 {
        let dl = vs.drop_last();
        lemma_variants_wf(dl);
        if forall|i: int| 0 <= i < vs.len() ==> #[trigger] all_wf(vs[i]@) {
            assert forall|i: int| 0 <= i < dl.len() implies #[trigger] all_wf(dl[i]@) by {
                assert(dl[i] == vs[i]);
            }
            assert(all_wf(vs[vs.len() - 1]@));
        }
        if variants_wf(vs) {
            assert forall|i: int| 0 <= i < vs.len() implies #[trigger] all_wf(vs[i]@) by {
                if i < vs.len() - 1 {
                    assert(dl[i] == vs[i]);
                }
            }
        }
    }
}

proof fn lemma_list_has_types(xs: Seq<Val>, ts: Seq<TypeDesc>)
    requires
        xs.len() == ts.len(),
    ensures
        list_has_types(xs, ts) <==> forall|i: int|
            0 <= i < xs.len() ==> #[trigger] has_type(xs[i], ts[i]),
    decreases xs.len(),
{
    if xs.len() > 0 {
        let dx = xs.drop_last();
        let dt = ts.drop_last();
        lemma_list_has_types(dx, dt);
        if forall|i: int| 0 <= i < xs.len() ==> #[trigger] has_type(xs[i], ts[i]) {
            assert forall|i: int| 0 <= i < dx.len() implies #[trigger] has_type(dx[i], dt[i]) by {
                assert(dx[i] == xs[i] && dt[i] == ts[i]);
            }
            assert(has_type(xs[xs.len() - 1], ts[ts.len() - 1]));
        }
        if list_has_types(xs, ts) {
            assert forall|i: int| 0 <= i < xs.len() implies #[trigger] has_type(xs[i], ts[i]) by {
                if i < xs.len() - 1 {
                    assert(dx[i] == xs[i] && dt[i] == ts[i]);
                }
            }
        }
    }
}

proof fn lemma_sizes_sum_prefix(ts: Seq<TypeDesc>, i: int)
    requires
        0 <= i <= ts.len(),
    ensures
        sizes_sum(ts.take(i)) <= sizes_sum(ts),
    decreases ts.len(),
{
    if i < ts.len() {
        lemma_sizes_sum_prefix(ts.drop_last(), i);
        assert(ts.drop_last().take(i) =~= ts.take(i));
    } else {
        assert(ts.take(i) =~= ts);
    }
}

proof fn lemma_sizes_sum_step(ts: Seq<TypeDesc>, i: int)
    requires
        0 <= i < ts.len(),
    ensures
        sizes_sum(ts.take(i + 1)) == sizes_sum(ts.take(i)) + size(ts[i]),
{
    assert(ts.take(i + 1).drop_last() =~= ts.take(i));
}

proof fn lemma_variants_max_prefix(vs: Seq<Vec<TypeDesc>>, i: int)
    requires
        0 <= i <= vs.len(),
    ensures
        variants_max(vs.take(i)) <= variants_max(vs),
        i < vs.len() ==> 1 + sizes_sum(vs[i]@) <= variants_max(vs),
    decreases vs.len(),
{
    if i < vs.len() {
        if i < vs.len() - 1 {
            lemma_variants_max_prefix(vs.drop_last(), i);
            assert(vs.drop_last().take(i) =~= vs.take(i));
        } else {
            assert(vs.drop_last() =~= vs.take(i));
        }
    } else {
        assert(vs.take(i) =~= vs);
    }
}

proof fn lemma_variants_max_step(vs: Seq<Vec<TypeDesc>>, i: int)
    requires
        0 <= i < vs.len(),
    ensures
        variants_max(vs.take(i + 1)) == (if variants_max(vs.take(i)) >= 1 + sizes_sum(vs[i]@) {
            variants_max(vs.take(i))
        } else {
            1 + sizes_sum(vs[i]@)
        }),
{
    assert(vs.take(i + 1).drop_last() =~= vs.take(i));
}

// ---------------------------------------------------------------------------
// Sizes, checks and type tests, executable

/// The sum of the sizes of a list of well-formed fields.
fn fields_size(fs: &Vec<TypeDesc>) -> (r: usize)
    requires
        sizes_sum(fs@) <= usize::MAX,
        all_wf(fs@),
    ensures
        r == sizes_sum(fs@),
    decreases fs,
{
    proof {
        lemma_all_wf(fs@);
    }
    let mut acc: usize = 0;
    let mut i: usize = 0;
    while i < fs.len()
        invariant
            i <= fs@.len(),
            sizes_sum(fs@) <= usize::MAX,
            forall|j: int| 0 <= j < fs@.len() ==> #[trigger] wf(fs@[j]),
            acc == sizes_sum(fs@.take(i as int)),
        decreases fs@.len() - i,
    {
        let s = byte_size_of(&fs[i]);
        proof {
            lemma_sizes_sum_step(fs@, i as int);
            lemma_sizes_sum_prefix(fs@, i + 1);
        }
        acc = acc + s;
        i = i + 1;
    }
    assert(fs@.take(i as int) =~= fs@);
    acc
}

/// The size of a well-formed type.
fn byte_size_of(t: &TypeDesc) -> (r: usize)
    requires
        wf(*t),
    ensures
        r == size(*t),
    decreases t,
{
    match t {
        TypeDesc::Scalar(p) => p.width(),
        TypeDesc::Array(e, n) => {
            let s = byte_size_of(e);
            *n * s
        },
        TypeDesc::Struct(fs) => {
            fields_size(fs)
        },
        TypeDesc::Optional(e) => 1 + byte_size_of(e),
        TypeDesc::Enum(vs) => {
            let mut acc: usize = 0;
            let mut i: usize = 0;
            while i < vs.len()
                invariant
                    i <= vs@.len(),
                    wf(*t),
                    *t == TypeDesc::Enum(*vs),
                    acc == variants_max(vs@.take(i as int)),
                decreases vs@.len() - i,
            {
                proof {
                    lemma_variants_wf(vs@);
                    lemma_variants_max_prefix(vs@, i as int);
                    lemma_sizes_sum_prefix(vs@[i as int]@, vs@[i as int]@.len() as int);
                    assert(vs@[i as int]@.take(vs@[i as int]@.len() as int) =~= vs@[i as int]@);
                    lemma_variants_max_step(vs@, i as int);
                }
                let s = 1 + fields_size(&vs[i]);
                if s > acc {
                    acc = s;
                }
                i = i + 1;
            }
            assert(vs@.take(i as int) =~= vs@);
            acc
        },
    }
}


/// The sum of the field sizes when every field is well-formed and the sum
/// fits in `usize`.
fn checked_fields_size(fs: &Vec<TypeDesc>) -> (r: Option<usize>)
    ensures
        r == (if all_wf(fs@) && sizes_sum(fs@) <= usize::MAX {
            Some(sizes_sum(fs@) as usize)
        } else {
            None
        }),
    decreases fs,
{
    proof {
        lemma_all_wf(fs@);
    }
    let mut acc: usize = 0;
    let mut i: usize = 0;
    while i < fs.len()
        invariant
            i <= fs@.len(),
            forall|j: int| 0 <= j < i ==> #[trigger] wf(fs@[j]),
            acc == sizes_sum(fs@.take(i as int)),
            all_wf(fs@) <==> forall|j: int| 0 <= j < fs@.len() ==> #[trigger] wf(fs@[j]),
        decreases fs@.len() - i,
    {
        proof {
            lemma_sizes_sum_step(fs@, i as int);
            lemma_sizes_sum_prefix(fs@, i + 1);
        }
        match checked_size_of(&fs[i]) {
            None => {
                return None;
            },
            Some(s) => {
                match acc.checked_add(s) {
                    None => {
                        return None;
                    },
                    Some(a) => {
                        acc = a;
                    },
                }
            },
        }
        i = i + 1;
    }
    assert(fs@.take(i as int) =~= fs@);
    Some(acc)
}

/// The size of `t` when it is well-formed.
fn checked_size_of(t: &TypeDesc) -> (r: Option<usize>)
    ensures
        r == (if wf(*t) {
            Some(size(*t) as usize)
        } else {
            None
        }),
    decreases t,
{
    match t {
        TypeDesc::Scalar(p) => Some(p.width()),
        TypeDesc::Array(e, n) => match checked_size_of(e) {
            None => None,
            Some(s) => n.checked_mul(s),
        },
        TypeDesc::Struct(fs) => checked_fields_size(fs),
        TypeDesc::Optional(e) => match checked_size_of(e) {
            None => None,
            Some(s) => s.checked_add(1),
        },
        TypeDesc::Enum(vs) => {
            if vs.len() == 0 || vs.len() > 256 {
                None
            } else {
                checked_variants_size(vs)
            }
        },
    }
}

/// The largest variant size when every variant is well-formed and fits.
fn checked_variants_size(vs: &Vec<Vec<TypeDesc>>) -> (r: Option<usize>)
    ensures
        r == (if variants_wf(vs@) && variants_max(vs@) <= usize::MAX {
            Some(variants_max(vs@) as usize)
        } else {
            None
        }),
    decreases vs,
{
    proof {
        lemma_variants_wf(vs@);
    }
    let mut acc: usize = 0;
    let mut i: usize = 0;
    while i < vs.len()
        invariant
            i <= vs@.len(),
            forall|j: int| 0 <= j < i ==> #[trigger] all_wf(vs@[j]@),
            acc == variants_max(vs@.take(i as int)),
            variants_wf(vs@) <==> forall|j: int| 0 <= j < vs@.len() ==> #[trigger] all_wf(vs@[j]@),
        decreases vs@.len() - i,
    {
        proof {
            lemma_variants_max_prefix(vs@, i as int);
            lemma_variants_max_step(vs@, i as int);
        }
        match checked_fields_size(&vs[i]) {
            None => {
                return None;
            },
            Some(s) => {
                match s.checked_add(1) {
                    None => {
                        return None;
                    },
                    Some(s1) => {
                        if s1 > acc {
                            acc = s1;
                        }
                    },
                }
            },
        }
        i = i + 1;
    }
    assert(vs@.take(i as int) =~= vs@);
    Some(acc)
}

/// Whether each value of `xs` has the type at the same place in `fs`.
fn admits_fields(fs: &Vec<TypeDesc>, xs: &Vec<Value>) -> (r: bool)
    ensures
        r == (xs@.len() == fs@.len() && list_has_types(vals_of(xs@), fs@)),
    decreases xs,
{
    if xs.len() != fs.len() {
        return false;
    }
    proof {
        lemma_vals_of(xs@);
        lemma_list_has_types(vals_of(xs@), fs@);
    }
    let mut i: usize = 0;
    while i < xs.len()
        invariant
            i <= xs@.len() == fs@.len(),
            vals_of(xs@).len() == xs@.len(),
            forall|j: int| 0 <= j < xs@.len() ==> #[trigger] vals_of(xs@)[j] == val_of(xs@[j]),
            forall|j: int| 0 <= j < i ==> #[trigger] has_type(vals_of(xs@)[j], fs@[j]),
            list_has_types(vals_of(xs@), fs@) <==> forall|j: int|
                0 <= j < xs@.len() ==> #[trigger] has_type(vals_of(xs@)[j], fs@[j]),
        decreases xs@.len() - i,
    {
        if !admits_of(&fs[i], &xs[i]) {
            assert(!has_type(vals_of(xs@)[i as int], fs@[i as int]));
            return false;
        }
        i = i + 1;
    }
    true
}

/// Whether every value of `xs` has type `e`.
fn admits_all(e: &TypeDesc, xs: &Vec<Value>) -> (r: bool)
    ensures
        r == list_has_types(vals_of(xs@), repeat(*e, xs@.len())),
    decreases xs,
{
    let ghost ts = repeat(*e, xs@.len());
    proof {
        lemma_vals_of(xs@);
        lemma_list_has_types(vals_of(xs@), ts);
    }
    let mut i: usize = 0;
    while i < xs.len()
        invariant
            i <= xs@.len() == ts.len(),
            ts == repeat(*e, xs@.len()),
            vals_of(xs@).len() == xs@.len(),
            forall|j: int| 0 <= j < xs@.len() ==> #[trigger] vals_of(xs@)[j] == val_of(xs@[j]),
            forall|j: int| 0 <= j < i ==> #[trigger] has_type(vals_of(xs@)[j], ts[j]),
            list_has_types(vals_of(xs@), ts) <==> forall|j: int|
                0 <= j < xs@.len() ==> #[trigger] has_type(vals_of(xs@)[j], ts[j]),
        decreases xs@.len() - i,
    {
        if !admits_of(e, &xs[i]) {
            assert(!has_type(vals_of(xs@)[i as int], ts[i as int]));
            return false;
        }
        i = i + 1;
    }
    true
}

/// Whether `v` is a value of type `t`.
fn admits_of(t: &TypeDesc, v: &Value) -> (r: bool)
    ensures
        r == has_type(v@, *t),
    decreases v,
{
    match v {
        Value::Scalar(b) => {
            assert(v@ == Val::Scalar(*b as nat));
            match t {
                TypeDesc::Scalar(p) => scalar_fits(*b, p.width()),
                _ => false,
            }
        },
        Value::List(xs) => {
            assert(v@ == Val::List(vals_of(xs@)));
            proof {
                lemma_vals_of(xs@);
            }
            match t {
                TypeDesc::Array(e, n) => xs.len() == *n && admits_all(e, xs),
                TypeDesc::Struct(fs) => admits_fields(fs, xs),
                _ => false,
            }
        },
        Value::Absent => {
            assert(v@ == Val::Absent);
            match t {
                TypeDesc::Optional(_) => true,
                _ => false,
            }
        },
        Value::Present(x) => {
            assert(v@ == Val::Present(Box::new(val_of(**x))));
            match t {
                TypeDesc::Optional(e) => admits_of(e, x),
                _ => false,
            }
        },
        Value::Variant(tag, xs) => {
            assert(v@ == Val::Variant(*tag as nat, vals_of(xs@)));
            proof {
                lemma_vals_of(xs@);
            }
            match t {
                TypeDesc::Enum(vs) => (*tag as usize) < vs.len() && admits_fields(
                    &vs[*tag as usize],
                    xs,
                ),
                _ => false,
            }
        },
    }
}


// ---------------------------------------------------------------------------
// Encoding, executable

proof fn lemma_enc_list_step(ts: Seq<TypeDesc>, xs: Seq<Val>, i: int)
    requires
        0 <= i < xs.len(),
        i < ts.len(),
    ensures
        enc_list(ts.take(i + 1), xs.take(i + 1)) == enc_list(ts.take(i), xs.take(i)) + enc(
            ts[i],
            xs[i],
        ),
{
    assert(ts.take(i + 1).drop_last() =~= ts.take(i));
    assert(xs.take(i + 1).drop_last() =~= xs.take(i));
}

/// Appends `n` zero bytes.
fn push_zeros(n: usize, out: &mut Vec<u8>)
    ensures
        final(out)@ == old(out)@ + zeros(n as nat),
{
    let mut i: usize = 0;
    while i < n
        invariant
            i <= n,
            out@ == old(out)@ + zeros(i as nat),
        decreases n - i,
    {
        out.push(0u8);
        i = i + 1;
        assert(out@ =~= old(out)@ + zeros(i as nat));
    }
}

/// Appends the encodings of values `xs` of the types `ts`, one after the other.
fn encode_fields(fs: &Vec<TypeDesc>, xs: &Vec<Value>, out: &mut Vec<u8>)
    requires
        all_wf(fs@),
        xs@.len() == fs@.len(),
        list_has_types(vals_of(xs@), fs@),
    ensures
        final(out)@ == old(out)@ + enc_list(fs@, vals_of(xs@)),
    decreases xs,
{
    let ghost vals = vals_of(xs@);
    proof {
        lemma_vals_of(xs@);
        lemma_list_has_types(vals, fs@);
        lemma_all_wf(fs@);
    }
    let mut i: usize = 0;
    while i < xs.len()
        invariant
            i <= xs@.len() == fs@.len() == vals.len(),
            vals == vals_of(xs@),
            forall|j: int| 0 <= j < xs@.len() ==> #[trigger] vals[j] == val_of(xs@[j]),
            forall|j: int| 0 <= j < xs@.len() ==> #[trigger] has_type(vals[j], fs@[j]),
            forall|j: int| 0 <= j < fs@.len() ==> #[trigger] wf(fs@[j]),
            out@ == old(out)@ + enc_list(fs@.take(i as int), vals.take(i as int)),
        decreases xs@.len() - i,
    {
        assert(has_type(vals[i as int], fs@[i as int]));
        assert(xs@[i as int]@ == vals[i as int]);
        encode_value(&fs[i], &xs[i], out);
        proof {
            lemma_enc_list_step(fs@, vals, i as int);
            assert(out@ =~= old(out)@ + enc_list(fs@.take(i + 1), vals.take(i + 1)));
        }
        i = i + 1;
    }
    assert(fs@.take(i as int) =~= fs@);
    assert(vals.take(i as int) =~= vals);
}

/// Appends the encodings of values `xs`, all of type `e`, one after the other.
fn encode_all(e: &TypeDesc, xs: &Vec<Value>, out: &mut Vec<u8>)
    requires
        wf(*e),
        list_has_types(vals_of(xs@), repeat(*e, xs@.len())),
    ensures
        final(out)@ == old(out)@ + enc_list(repeat(*e, xs@.len()), vals_of(xs@)),
    decreases xs,
{
    let ghost vals = vals_of(xs@);
    let ghost ts = repeat(*e, xs@.len());
    proof {
        lemma_vals_of(xs@);
        lemma_list_has_types(vals, ts);
    }
    let mut i: usize = 0;
    while i < xs.len()
        invariant
            i <= xs@.len() == ts.len() == vals.len(),
            vals == vals_of(xs@),
            ts == repeat(*e, xs@.len()),
            wf(*e),
            forall|j: int| 0 <= j < xs@.len() ==> #[trigger] vals[j] == val_of(xs@[j]),
            forall|j: int| 0 <= j < xs@.len() ==> #[trigger] has_type(vals[j], ts[j]),
            out@ == old(out)@ + enc_list(ts.take(i as int), vals.take(i as int)),
        decreases xs@.len() - i,
    {
        assert(has_type(vals[i as int], ts[i as int]));
        assert(xs@[i as int]@ == vals[i as int]);
        encode_value(e, &xs[i], out);
        proof {
            lemma_enc_list_step(ts, vals, i as int);
            assert(out@ =~= old(out)@ + enc_list(ts.take(i + 1), vals.take(i + 1)));
        }
        i = i + 1;
    }
    assert(ts.take(i as int) =~= ts);
    assert(vals.take(i as int) =~= vals);
}

/// Appends the encoding of value `v` of type `t`.
fn encode_value(t: &TypeDesc, v: &Value, out: &mut Vec<u8>)
    requires
        wf(*t),
        has_type(v@, *t),
    ensures
        final(out)@ == old(out)@ + enc(*t, v@),
    decreases v,
{
    match v {
        Value::Scalar(b) => {
            assert(v@ == Val::Scalar(*b as nat));
            match t {
                TypeDesc::Scalar(p) => {
                    write_scalar(*b, p.width(), out);
                },
                _ => {},
            }
        },
        Value::List(xs) => {
            assert(v@ == Val::List(vals_of(xs@)));
            proof {
                lemma_vals_of(xs@);
            }
            match t {
                TypeDesc::Array(e, _) => {
                    encode_all(e, xs, out);
                },
                TypeDesc::Struct(fs) => {
                    encode_fields(fs, xs, out);
                },
                _ => {},
            }
        },
        Value::Absent => {
            assert(v@ == Val::Absent);
            match t {
                TypeDesc::Optional(e) => {
                    out.push(0u8);
                    let n = byte_size_of(e);
                    push_zeros(n, out);
                    assert(out@ =~= old(out)@ + enc(*t, v@));
                },
                _ => {},
            }
        },
        Value::Present(x) => {
            assert(v@ == Val::Present(Box::new(val_of(**x))));
            match t {
                TypeDesc::Optional(e) => {
                    out.push(1u8);
                    encode_value(e, x, out);
                    assert(out@ =~= old(out)@ + enc(*t, v@));
                },
                _ => {},
            }
        },
        Value::Variant(tag, xs) => {
            assert(v@ == Val::Variant(*tag as nat, vals_of(xs@)));
            proof {
                lemma_vals_of(xs@);
            }
            match t {
                TypeDesc::Enum(vs) => {
                    proof {
                        lemma_variants_wf(vs@);
                    }
                    out.push(*tag);
                    encode_fields(&vs[*tag as usize], xs, out);
                    assert(out@ =~= old(out)@ + enc(*t, v@));
                },
                _ => {},
            }
        },
    }
}


// ---------------------------------------------------------------------------
// Decoding, executable

/// Whether the result of a read agrees with the decoding `p` of the model.
pub open spec fn read_matches(r: Result<(usize, Value), CodecError>, p: Result<(nat, Val), CodecError>) -> bool {
    match p {
        Ok((n, x)) => match r {
            Ok((m, y)) => m as nat == n && y@ == x,
            Err(_) => false,
        },
        Err(e) => r == Err::<(usize, Value), CodecError>(e),
    }
}

/// Whether the result of reading a list agrees with the decoding `p` of the model.
pub open spec fn list_read_matches(
    r: Result<(usize, Vec<Value>), CodecError>,
    p: Result<(nat, Seq<Val>), CodecError>,
) -> bool {
    match p {
        Ok((n, xs)) => match r {
            Ok((m, ys)) => m as nat == n && vals_of(ys@) == xs,
            Err(_) => false,
        },
        Err(e) => r == Err::<(usize, Vec<Value>), CodecError>(e),
    }
}

/// A successful decoding stays within its input and yields a value of the
/// type.
pub proof fn lemma_parse_sound(t: TypeDesc, s: Seq<u8>)
    ensures
        parse(t, s) is Ok ==> parse(t, s)->Ok_0.0 <= s.len() && has_type(parse(t, s)->Ok_0.1, t),
    decreases t, 0nat,
{
    match t {
        TypeDesc::Scalar(p) => {
            if s.len() >= p.spec_width() {
                lemma_le_value_bound(s.take(p.spec_width() as int));
            }
        },
        TypeDesc::Array(e, n) => {
            lemma_parse_rep_sound(*e, n as nat, s);
        },
        TypeDesc::Struct(fs) => {
            lemma_parse_list_sound(fs@, s);
        },
        TypeDesc::Optional(e) => {
            if s.len() >= 1 && s[0] == 1 {
                lemma_parse_sound(*e, s.skip(1));
            }
        },
        TypeDesc::Enum(vs) => {
            if s.len() >= 1 && s[0] < vs@.len() {
                lemma_parse_list_sound(vs@[s[0] as int]@, s.skip(1));
            }
        },
    }
}

proof fn lemma_parse_rep_sound(e: TypeDesc, k: nat, s: Seq<u8>)
    ensures
        parse_rep(e, k, s) is Ok ==> {
            let (n, xs) = parse_rep(e, k, s)->Ok_0;
            n <= s.len() && xs.len() == k && list_has_types(xs, repeat(e, k))
        },
    decreases e, k,
{
    if k > 0 {
        lemma_parse_rep_sound(e, (k - 1) as nat, s);
        if let Ok((n, xs)) = parse_rep(e, (k - 1) as nat, s) {
            lemma_parse_sound(e, s.skip(n as int));
            if let Ok((m, x)) = parse(e, s.skip(n as int)) {
                assert(xs.push(x).drop_last() =~= xs);
                assert(repeat(e, k).drop_last() =~= repeat(e, (k - 1) as nat));
            }
        }
    }
}

proof fn lemma_parse_list_sound(ts: Seq<TypeDesc>, s: Seq<u8>)
    ensures
        parse_list(ts, s) is Ok ==> {
            let (n, xs) = parse_list(ts, s)->Ok_0;
            n <= s.len() && xs.len() == ts.len() && list_has_types(xs, ts)
        },
    decreases ts, 0nat,
{
    if ts.len() > 0 {
        lemma_parse_list_sound(ts.drop_last(), s);
        if let Ok((n, xs)) = parse_list(ts.drop_last(), s) {
            lemma_parse_sound(ts.last(), s.skip(n as int));
            if let Ok((m, x)) = parse(ts.last(), s.skip(n as int)) {
                assert(xs.push(x).drop_last() =~= xs);
            }
        }
    }
}

/// Once a prefix of the fields fails to decode, the whole list fails alike.
proof fn lemma_parse_list_err(ts: Seq<TypeDesc>, i: int, s: Seq<u8>)
    requires
        0 <= i <= ts.len(),
        parse_list(ts.take(i), s) is Err,
    ensures
        parse_list(ts, s) == parse_list(ts.take(i), s),
    decreases ts.len(),
{
    if i == ts.len() {
        assert(ts.take(i) =~= ts);
    } else {
        assert(ts.drop_last().take(i) =~= ts.take(i));
        lemma_parse_list_err(ts.drop_last(), i, s);
    }
}

/// Once some repetitions fail to decode, more of them fail alike.
proof fn lemma_parse_rep_err(e: TypeDesc, i: nat, k: nat, s: Seq<u8>)
    requires
        i <= k,
        parse_rep(e, i, s) is Err,
    ensures
        parse_rep(e, k, s) == parse_rep(e, i, s),
    decreases k,
{
    if i < k {
        lemma_parse_rep_err(e, i, (k - 1) as nat, s);
    }
}

/// Decodes the values of types `fs`, one after the other, from `pos` on.
fn decode_fields(fs: &Vec<TypeDesc>, s: &[u8], pos: usize) -> (r: Result<(usize, Vec<Value>), CodecError>)
    requires
        all_wf(fs@),
        pos <= s@.len(),
    ensures
        list_read_matches(r, parse_list(fs@, s@.skip(pos as int))),
    decreases fs, 0nat,
{
    let ghost src = s@.skip(pos as int);
    proof {
        lemma_all_wf(fs@);
    }
    let mut vals: Vec<Value> = Vec::new();
    let mut cur: usize = pos;
    let mut i: usize = 0;
    let len = s.len();
    while i < fs.len()
        invariant
            i <= fs@.len(),
            pos <= cur <= s@.len() == len,
            src == s@.skip(pos as int),
            forall|j: int| 0 <= j < fs@.len() ==> #[trigger] wf(fs@[j]),
            parse_list(fs@.take(i as int), src) == Ok::<(nat, Seq<Val>), CodecError>(
                ((cur - pos) as nat, vals_of(vals@)),
            ),
        decreases fs@.len() - i,
    {
        let ghost prev = fs@.take(i as int);
        assert(fs@.take(i + 1).drop_last() =~= prev);
        assert(src.skip(cur - pos) =~= s@.skip(cur as int));
        proof {
            lemma_parse_sound(fs@[i as int], s@.skip(cur as int));
        }
        match decode_value(&fs[i], s, cur) {
            Err(e) => {
                proof {
                    lemma_parse_list_err(fs@, i + 1, src);
                }
                return Err(e);
            },
            Ok((m, x)) => {
                let ghost old_vals = vals@;
                vals.push(x);
                assert(vals@.drop_last() =~= old_vals);
                cur = cur + m;
            },
        }
        i = i + 1;
    }
    assert(fs@.take(i as int) =~= fs@);
    Ok((cur - pos, vals))
}

/// Decodes `n` values of type `e`, one after the other, from `pos` on.
fn decode_all(e: &TypeDesc, n: usize, s: &[u8], pos: usize) -> (r: Result<(usize, Vec<Value>), CodecError>)
    requires
        wf(*e),
        pos <= s@.len(),
    ensures
        list_read_matches(r, parse_rep(*e, n as nat, s@.skip(pos as int))),
    decreases *e, 1nat,
{
    let ghost src = s@.skip(pos as int);
    let mut vals: Vec<Value> = Vec::new();
    let mut cur: usize = pos;
    let mut i: usize = 0;
    let len = s.len();
    while i < n
        invariant
            i <= n,
            pos <= cur <= s@.len() == len,
            src == s@.skip(pos as int),
            wf(*e),
            parse_rep(*e, i as nat, src) == Ok::<(nat, Seq<Val>), CodecError>(
                ((cur - pos) as nat, vals_of(vals@)),
            ),
        decreases n - i,
    {
        assert(src.skip(cur - pos) =~= s@.skip(cur as int));
        proof {
            lemma_parse_sound(*e, s@.skip(cur as int));
        }
        match decode_value(e, s, cur) {
            Err(err) => {
                proof {
                    lemma_parse_rep_err(*e, (i + 1) as nat, n as nat, src);
                }
                return Err(err);
            },
            Ok((m, x)) => {
                let ghost old_vals = vals@;
                vals.push(x);
                assert(vals@.drop_last() =~= old_vals);
                cur = cur + m;
            },
        }
        i = i + 1;
    }
    Ok((cur - pos, vals))
}

/// Decodes a value of type `t` from `pos` on.
pub(crate) fn decode_value(t: &TypeDesc, s: &[u8], pos: usize) -> (r: Result<(usize, Value), CodecError>)
    requires
        wf(*t),
        pos <= s@.len(),
    ensures
        read_matches(r, parse(*t, s@.skip(pos as int))),
    decreases *t, 0nat,
{
    let ghost src = s@.skip(pos as int);
    let avail = s.len() - pos;
    match t {
        TypeDesc::Scalar(p) => {
            let w = p.width();
            if avail < w {
                Err(CodecError::OutOfMemory)
            } else {
                let b = read_scalar(s, pos, w);
                assert(src.take(w as int) =~= s@.subrange(pos as int, pos + w));
                Ok((w, Value::Scalar(b)))
            }
        },
        TypeDesc::Array(e, n) => match decode_all(e, *n, s, pos) {
            Ok((k, xs)) => Ok((k, Value::List(xs))),
            Err(err) => Err(err),
        },
        TypeDesc::Struct(fs) => match decode_fields(fs, s, pos) {
            Ok((k, xs)) => Ok((k, Value::List(xs))),
            Err(err) => Err(err),
        },
        TypeDesc::Optional(e) => {
            if avail < 1 {
                Err(CodecError::OutOfMemory)
            } else if s[pos] == 0 {
                let size = byte_size_of(e);
                if avail - 1 < size {
                    Err(CodecError::OutOfMemory)
                } else {
                    Ok((1 + size, Value::Absent))
                }
            } else if s[pos] == 1 {
                assert(src.skip(1) =~= s@.skip(pos + 1));
                proof {
                    lemma_parse_sound(**e, s@.skip(pos + 1));
                }
                match decode_value(e, s, pos + 1) {
                    Ok((k, x)) => Ok((1 + k, Value::Present(Box::new(x)))),
                    Err(err) => Err(err),
                }
            } else {
                Err(CodecError::BadEnumVariant)
            }
        },
        TypeDesc::Enum(vs) => {
            if avail < 1 {
                Err(CodecError::OutOfMemory)
            } else if s[pos] as usize >= vs.len() {
                Err(CodecError::BadEnumVariant)
            } else {
                let tag = s[pos];
                proof {
                    lemma_variants_wf(vs@);
                    lemma_parse_list_sound(vs@[tag as int]@, s@.skip(pos + 1));
                }
                assert(src.skip(1) =~= s@.skip(pos + 1));
                match decode_fields(&vs[tag as usize], s, pos + 1) {
                    Ok((k, xs)) => Ok((1 + k, Value::Variant(tag, xs))),
                    Err(err) => Err(err),
                }
            }
        },
    }
}


// ---------------------------------------------------------------------------
// Laws of the codec

/// Decoding the encoding of a value, followed by anything, gives back the
/// value and consumes exactly its encoding.
pub proof fn lemma_round_trip(t: TypeDesc, v: Val, rest: Seq<u8>)
    requires
        wf(t),
        has_type(v, t),
    ensures
        parse(t, enc(t, v) + rest) == Ok::<(nat, Val), CodecError>((enc(t, v).len(), v)),
    decreases v,
{
    let s = enc(t, v) + rest;
    match v {
        Val::Scalar(b) => {
            if let TypeDesc::Scalar(p) = t {
                let w = p.spec_width();
                lemma_le_bytes_len(b, w);
                lemma_le_round_trip(b, w);
                assert(s.take(w as int) =~= le_bytes(b, w));
            }
        },
        Val::List(xs) => {
            match t {
                TypeDesc::Array(e, n) => {
                    lemma_rep_round_trip(*e, xs, rest);
                },
                TypeDesc::Struct(fs) => {
                    lemma_list_round_trip(fs@, xs, rest);
                },
                _ => {},
            }
        },
        Val::Absent => {},
        Val::Present(x) => {
            if let TypeDesc::Optional(e) = t {
                lemma_round_trip(*e, *x, rest);
                assert(s.skip(1) =~= enc(*e, *x) + rest);
            }
        },
        Val::Variant(tag, xs) => {
            if let TypeDesc::Enum(vs) = t {
                lemma_variants_wf(vs@);
                lemma_list_round_trip(vs@[tag as int]@, xs, rest);
                assert(s.skip(1) =~= enc_list(vs@[tag as int]@, xs) + rest);
            }
        },
    }
}

proof fn lemma_list_round_trip(ts: Seq<TypeDesc>, xs: Seq<Val>, rest: Seq<u8>)
    requires
        all_wf(ts),
        xs.len() == ts.len(),
        list_has_types(xs, ts),
    ensures
        parse_list(ts, enc_list(ts, xs) + rest) == Ok::<(nat, Seq<Val>), CodecError>(
            (enc_list(ts, xs).len(), xs),
        ),
    decreases xs,
{
    if xs.len() > 0 {
        let dt = ts.drop_last();
        let dx = xs.drop_last();
        let tail = enc(ts.last(), xs.last());
        let s = enc_list(ts, xs) + rest;
        assert(s =~= enc_list(dt, dx) + (tail + rest));
        lemma_list_round_trip(dt, dx, tail + rest);
        assert(s.skip(enc_list(dt, dx).len() as int) =~= tail + rest);
        lemma_round_trip(ts.last(), xs.last(), rest);
        assert(dx.push(xs.last()) =~= xs);
    } else {
        assert(xs =~= Seq::<Val>::empty());
    }
}

proof fn lemma_rep_round_trip(e: TypeDesc, xs: Seq<Val>, rest: Seq<u8>)
    requires
        wf(e),
        list_has_types(xs, repeat(e, xs.len())),
    ensures
        parse_rep(e, xs.len(), enc_list(repeat(e, xs.len()), xs) + rest) == Ok::<
            (nat, Seq<Val>),
            CodecError,
        >((enc_list(repeat(e, xs.len()), xs).len(), xs)),
    decreases xs,
{
    if xs.len() > 0 {
        let k = xs.len();
        let dx = xs.drop_last();
        assert(repeat(e, k).drop_last() =~= repeat(e, (k - 1) as nat));
        let tail = enc(e, xs.last());
        let s = enc_list(repeat(e, k), xs) + rest;
        assert(s =~= enc_list(repeat(e, (k - 1) as nat), dx) + (tail + rest));
        lemma_rep_round_trip(e, dx, tail + rest);
        assert(s.skip(enc_list(repeat(e, (k - 1) as nat), dx).len() as int) =~= tail + rest);
        lemma_round_trip(e, xs.last(), rest);
        assert(dx.push(xs.last()) =~= xs);
    } else {
        assert(xs =~= Seq::<Val>::empty());
    }
}


/// The largest payload size (sum of field sizes) over the variants.
pub open spec fn payload_max(vs: Seq<Vec<TypeDesc>>) -> nat
    decreases vs,
{
    if vs.len() == 0 {
        0
    } else {
        let a = payload_max(vs.drop_last());
        let b = sizes_sum(vs.last()@);
        if a >= b { a } else { b }
    }
}

proof fn lemma_variants_max_payload(vs: Seq<Vec<TypeDesc>>)
    requires
        vs.len() >= 1,
    ensures
        variants_max(vs) == 1 + payload_max(vs),
    decreases vs.len(),
{
    if vs.len() > 1 {
        lemma_variants_max_payload(vs.drop_last());
    } else {
        assert(variants_max(vs.drop_last()) == 0);
        assert(payload_max(vs.drop_last()) == 0);
    }
}

/// An enum's size is one tag byte more than its largest variant payload, and
/// each of its values decodes back from its encoding: the same variant with
/// the same payload.
pub proof fn lemma_enum_law(vs: Vec<Vec<TypeDesc>>, tag: nat, xs: Seq<Val>, rest: Seq<u8>)
    requires
        wf(TypeDesc::Enum(vs)),
        has_type(Val::Variant(tag, xs), TypeDesc::Enum(vs)),
    ensures
        size(TypeDesc::Enum(vs)) == 1 + payload_max(vs@),
        parse(TypeDesc::Enum(vs), enc(TypeDesc::Enum(vs), Val::Variant(tag, xs)) + rest) == Ok::<
            (nat, Val),
            CodecError,
        >((1 + enc_list(vs@[tag as int]@, xs).len(), Val::Variant(tag, xs))),
{
    lemma_variants_max_payload(vs@);
    lemma_round_trip(TypeDesc::Enum(vs), Val::Variant(tag, xs), rest);
}

/// The encoding of a value takes at most the size of its type.
pub proof fn lemma_enc_len(t: TypeDesc, v: Val)
    requires
        has_type(v, t),
    ensures
        enc(t, v).len() <= size(t),
    decreases v,
{
    match v {
        Val::Scalar(b) => {
            if let TypeDesc::Scalar(p) = t {
                lemma_le_bytes_len(b, p.spec_width());
            }
        },
        Val::List(xs) => {
            match t {
                TypeDesc::Array(e, n) => {
                    lemma_rep_len(*e, xs);
                },
                TypeDesc::Struct(fs) => {
                    lemma_list_len(fs@, xs);
                },
                _ => {},
            }
        },
        Val::Absent => {},
        Val::Present(x) => {
            if let TypeDesc::Optional(e) = t {
                lemma_enc_len(*e, *x);
            }
        },
        Val::Variant(tag, xs) => {
            if let TypeDesc::Enum(vs) = t {
                lemma_list_len(vs@[tag as int]@, xs);
                lemma_variants_max_prefix(vs@, tag as int);
            }
        },
    }
}

proof fn lemma_list_len(ts: Seq<TypeDesc>, xs: Seq<Val>)
    requires
        xs.len() == ts.len(),
        list_has_types(xs, ts),
    ensures
        enc_list(ts, xs).len() <= sizes_sum(ts),
    decreases xs,
{
    if xs.len() > 0 {
        lemma_list_len(ts.drop_last(), xs.drop_last());
        lemma_enc_len(ts.last(), xs.last());
    }
}

proof fn lemma_rep_len(e: TypeDesc, xs: Seq<Val>)
    requires
        list_has_types(xs, repeat(e, xs.len())),
    ensures
        enc_list(repeat(e, xs.len()), xs).len() <= xs.len() * size(e),
    decreases xs,
{
    if xs.len() > 0 {
        let k = xs.len();
        assert(repeat(e, k).drop_last() =~= repeat(e, (k - 1) as nat));
        lemma_rep_len(e, xs.drop_last());
        lemma_enc_len(e, xs.last());
        assert((k - 1) * size(e) + size(e) == k * size(e)) by (nonlinear_arith);
    }
}

// ---------------------------------------------------------------------------
// Zero values

/// The zero value of a type: scalars are 0, optional values absent, and an
/// enum takes its first variant.
pub open spec fn zero_val(t: TypeDesc) -> Val
    decreases t, 0nat,
{
    match t {
        TypeDesc::Scalar(_) => Val::Scalar(0),
        TypeDesc::Array(e, n) => Val::List(zero_rep(*e, n as nat)),
        TypeDesc::Struct(fs) => Val::List(zero_list(fs@)),
        TypeDesc::Optional(_) => Val::Absent,
        TypeDesc::Enum(vs) => if vs@.len() > 0 {
            Val::Variant(0, zero_list(vs@[0]@))
        } else {
            Val::Absent
        },
    }
}

/// `k` zero values of type `e`.
pub open spec fn zero_rep(e: TypeDesc, k: nat) -> Seq<Val>
    decreases e, k,
{
    if k == 0 {
        Seq::empty()
    } else {
        zero_rep(e, (k - 1) as nat).push(zero_val(e))
    }
}

/// The zero values of types `ts`.
pub open spec fn zero_list(ts: Seq<TypeDesc>) -> Seq<Val>
    decreases ts, 0nat,
{
    if ts.len() == 0 {
        Seq::empty()
    } else {
        zero_list(ts.drop_last()).push(zero_val(ts.last()))
    }
}

/// The zero value of a well-formed type is a value of it.
pub proof fn lemma_zero_has_type(t: TypeDesc)
    requires
        wf(t),
    ensures
        has_type(zero_val(t), t),
    decreases t, 0nat,
{
    match t {
        TypeDesc::Scalar(p) => {
            lemma_pow256_mono(0, p.spec_width());
        },
        TypeDesc::Array(e, n) => {
            lemma_zero_rep(*e, n as nat);
        },
        TypeDesc::Struct(fs) => {
            lemma_zero_list(fs@);
        },
        TypeDesc::Optional(_) => {},
        TypeDesc::Enum(vs) => {
            lemma_variants_wf(vs@);
            lemma_zero_list(vs@[0]@);
        },
    }
}

proof fn lemma_zero_rep(e: TypeDesc, k: nat)
    requires
        wf(e),
    ensures
        zero_rep(e, k).len() == k,
        list_has_types(zero_rep(e, k), repeat(e, k)),
    decreases e, k,
{
    if k > 0 {
        lemma_zero_rep(e, (k - 1) as nat);
        lemma_zero_has_type(e);
        assert(zero_rep(e, k).drop_last() =~= zero_rep(e, (k - 1) as nat));
        assert(repeat(e, k).drop_last() =~= repeat(e, (k - 1) as nat));
    }
}

proof fn lemma_zero_list(ts: Seq<TypeDesc>)
    requires
        all_wf(ts),
    ensures
        zero_list(ts).len() == ts.len(),
        list_has_types(zero_list(ts), ts),
    decreases ts, 0nat,
{
    if ts.len() > 0 {
        lemma_zero_list(ts.drop_last());
        lemma_zero_has_type(ts.last());
        assert(zero_list(ts).drop_last() =~= zero_list(ts.drop_last()));
    }
}

fn zero_fields(fs: &Vec<TypeDesc>) -> (r: Vec<Value>)
    requires
        all_wf(fs@),
    ensures
        vals_of(r@) == zero_list(fs@),
    decreases fs, 0nat,
{
    proof {
        lemma_all_wf(fs@);
    }
    let mut out: Vec<Value> = Vec::new();
    let mut i: usize = 0;
    assert(fs@.take(0) =~= Seq::<TypeDesc>::empty());
    while i < fs.len()
        invariant
            i <= fs@.len(),
            forall|j: int| 0 <= j < fs@.len() ==> #[trigger] wf(fs@[j]),
            vals_of(out@) == zero_list(fs@.take(i as int)),
        decreases fs@.len() - i,
    {
        let z = zero_value_of(&fs[i]);
        let ghost before = out@;
        out.push(z);
        assert(out@.drop_last() =~= before);
        assert(fs@.take(i + 1).drop_last() =~= fs@.take(i as int));
        i = i + 1;
    }
    assert(fs@.take(i as int) =~= fs@);
    out
}

fn zero_repeat(e: &TypeDesc, n: usize) -> (r: Vec<Value>)
    requires
        wf(*e),
    ensures
        vals_of(r@) == zero_rep(*e, n as nat),
    decreases *e, 1nat,
{
    let mut out: Vec<Value> = Vec::new();
    let mut i: usize = 0;
    while i < n
        invariant
            i <= n,
            wf(*e),
            vals_of(out@) == zero_rep(*e, i as nat),
        decreases n - i,
    {
        let z = zero_value_of(e);
        let ghost before = out@;
        out.push(z);
        assert(out@.drop_last() =~= before);
        i = i + 1;
    }
    out
}

fn zero_value_of(t: &TypeDesc) -> (r: Value)
    requires
        wf(*t),
    ensures
        r@ == zero_val(*t),
    decreases *t, 0nat,
{
    match t {
        TypeDesc::Scalar(_) => Value::Scalar(0),
        TypeDesc::Array(e, n) => Value::List(zero_repeat(e, *n)),
        TypeDesc::Struct(fs) => Value::List(zero_fields(fs)),
        TypeDesc::Optional(_) => Value::Absent,
        TypeDesc::Enum(vs) => {
            proof {
                lemma_variants_wf(vs@);
            }
            Value::Variant(0, zero_fields(&vs[0]))
        },
    }
}

// ---------------------------------------------------------------------------
// The public face of a type description

impl TypeDesc {
    /// The size of this type when it is well-formed, `None` otherwise.
    pub fn checked_size(&self) -> (r: Option<usize>)
        ensures
            r == (if wf(*self) {
                Some(size(*self) as usize)
            } else {
                None
            }),
    {
        checked_size_of(self)
    }

    /// The `BYTE_SIZE` of this type.
    pub fn byte_size(&self) -> (r: usize)
        requires
            wf(*self),
        ensures
            r == size(*self),
    {
        byte_size_of(self)
    }

    /// The zero value of this type.
    pub fn zero_value(&self) -> (r: Value)
        requires
            wf(*self),
        ensures
            r@ == zero_val(*self),
            has_type(r@, *self),
    {
        proof {
            lemma_zero_has_type(*self);
        }
        zero_value_of(self)
    }

    /// Whether `v` is a value of this type.
    pub fn admits(&self, v: &Value) -> (r: bool)
        ensures
            r == has_type(v@, *self),
    {
        admits_of(self, v)
    }

    /// The encoding of `v`.
    pub fn encode(&self, v: &Value) -> (r: Vec<u8>)
        requires
            wf(*self),
            has_type(v@, *self),
        ensures
            r@ == enc(*self, v@),
    {
        let mut out: Vec<u8> = Vec::new();
        encode_value(self, v, &mut out);
        assert(out@ =~= enc(*self, v@));
        out
    }

    /// Writes the encoding of `v` at the front of `mem` and returns its
    /// length; fails, leaving `mem` as it was, when `mem` is too short.
    pub fn write(&self, v: &Value, mem: &mut [u8]) -> (r: Result<usize, CodecError>)
        requires
            wf(*self),
            has_type(v@, *self),
        ensures
            enc(*self, v@).len() <= old(mem)@.len() ==> r == Ok::<usize, CodecError>(
                enc(*self, v@).len() as usize,
            ) && final(mem)@ == enc(*self, v@) + old(mem)@.skip(enc(*self, v@).len() as int),
            enc(*self, v@).len() > old(mem)@.len() ==> r == Err::<usize, CodecError>(
                CodecError::OutOfMemory,
            ) && final(mem)@ == old(mem)@,
    {
        let bytes = self.encode(v);
        if bytes.len() > mem.len() {
            return Err(CodecError::OutOfMemory);
        }
        let mut i: usize = 0;
        while i < bytes.len()
            invariant
                i <= bytes@.len() <= mem@.len(),
                mem@.len() == old(mem)@.len(),
                mem@ == bytes@.take(i as int) + old(mem)@.skip(i as int),
            decreases bytes@.len() - i,
        {
            mem[i] = bytes[i];
            i = i + 1;
            assert(mem@ =~= bytes@.take(i as int) + old(mem)@.skip(i as int));
        }
        assert(bytes@.take(i as int) =~= bytes@);
        Ok(bytes.len())
    }

    /// Reads a value of this type from the front of `bytes`: the number of
    /// bytes consumed and the value.
    pub fn read(&self, bytes: &[u8]) -> (r: Result<(usize, Value), CodecError>)
        requires
            wf(*self),
        ensures
            read_matches(r, parse(*self, bytes@)),
    {
        assert(bytes@.skip(0) =~= bytes@);
        decode_value(self, bytes, 0)
    }
}

} // verus!
