//! The registry of telemetry definitions: a namespace tree whose leaves get
//! sequential ids and dotted addresses, with lookups by id and by address.
use vstd::prelude::*;
use crate::value::{size, wf, TypeDesc};

verus! {

/// What `heck`'s snake-case conversion makes of a name.
pub uninterp spec fn snake_case_of(s: Seq<char>) -> Seq<char>;

/// Relies on `heck::ToSnakeCase::to_snake_case` for `str`: the result depends
/// on the characters of the name alone.
#[verifier::external_body]
fn to_snake_case(name: &str) -> (r: String)
    ensures
        r@ == snake_case_of(name@),
{
    heck::ToSnakeCase::to_snake_case(name)
}

/// `prefix.name`.
pub open spec fn joined(prefix: Seq<char>, name: Seq<char>) -> Seq<char> {
    prefix + seq!['.'] + name
}

fn join(prefix: &String, name: &str) -> (r: String)
    ensures
        r@ == joined(prefix@, name@),
{
    let mut r = prefix.clone();
    r.append(".");
    r.append(name);
    proof {
        reveal_strlit(".");
    }
    r
}


/// One node of a schema: a telemetry definition or a namespace of them.
#[derive(Debug)]
pub enum SchemaNode {
    /// A telemetry definition: its declared name, an address that replaces
    /// the snake-cased name when given, and its value type.
    Leaf { name: String, address: Option<String>, ty: TypeDesc },
    /// A namespace: its name, an id that its leaves start from when given,
    /// and its children in declaration order.
    Module { name: String, start_id: Option<u16>, children: Vec<SchemaNode> },
}

/// A schema: the root namespace's name, its first id, and its children.
#[derive(Debug)]
pub struct Schema {
    pub name: String,
    pub start_id: u16,
    pub children: Vec<SchemaNode>,
}

/// Why a schema was refused.
#[derive(Clone, Copy, Debug, PartialEq, Eq)]
pub enum SchemaError {
    /// A namespace asked for a first id below ids already given out.
    IdsMovedBackward,
    /// A leaf would get the id `0xFFFF`, or a higher one.
    IdOverflow,
    /// A leaf's value type is not well-formed.
    InvalidType,
    /// Two leaves, or two namespaces, share an address.
    DuplicateAddress,
}

/// A lookup found nothing.
#[derive(Clone, Copy, Debug, PartialEq, Eq)]
pub struct NotFound;

/// The model of a telemetry definition.
pub struct DefModel {
    pub id: nat,
    pub address: Seq<char>,
    pub ty: TypeDesc,
}

/// The model of a namespace: its address, its half-open id range, the
/// half-open range of its leaves among all definitions, and the largest
/// size of those leaves.
pub struct SpaceModel {
    pub address: Seq<char>,
    pub start: nat,
    pub end: nat,
    pub first: nat,
    pub last: nat,
    pub max_size: nat,
}

/// The definitions and namespaces placed so far, and the next free id.
pub struct Layout {
    pub defs: Seq<DefModel>,
    pub spaces: Seq<SpaceModel>,
    pub cursor: nat,
}

/// The largest value size among definitions (0 for none).
pub open spec fn max_size(defs: Seq<DefModel>) -> nat
    decreases defs.len(),
{
    if defs.len() == 0 {
        0
    } else {
        let a = max_size(defs.drop_last());
        let b = size(defs.last().ty);
        if a >= b { a } else { b }
    }
}

/// The address of a leaf under `prefix`.
pub open spec fn leaf_address(prefix: Seq<char>, name: String, address: Option<String>) -> Seq<char> {
    joined(
        prefix,
        match address {
            Some(a) => a@,
            None => snake_case_of(name@),
        },
    )
}

/// Places the nodes `items`, in order, under `prefix`.
pub open spec fn place_items(items: Seq<SchemaNode>, prefix: Seq<char>, acc: Layout) -> Result<Layout, SchemaError>
    decreases items,
{
    if items.len() == 0 {
        Ok(acc)
    } else {
        match place_items(items.drop_last(), prefix, acc) {
            Ok(a) => place_node(items.last(), prefix, a),
            Err(e) => Err(e),
        }
    }
}

/// Places one node under `prefix`: a leaf takes the next id; a namespace
/// first moves the next id to its start id, if it has one.
pub open spec fn place_node(node: SchemaNode, prefix: Seq<char>, acc: Layout) -> Result<Layout, SchemaError>
    decreases node,
{
    match node {
        SchemaNode::Leaf { name, address, ty } => {
            if acc.cursor >= 0xFFFF {
                Err(SchemaError::IdOverflow)
            } else if !wf(ty) {
                Err(SchemaError::InvalidType)
            } else {
                Ok(
                    Layout {
                        defs: acc.defs.push(
                            DefModel {
                                id: acc.cursor,
                                address: leaf_address(prefix, name, address),
                                ty,
                            },
                        ),
                        spaces: acc.spaces,
                        cursor: acc.cursor + 1,
                    },
                )
            }
        },
        SchemaNode::Module { name, start_id, children } => {
            let start = match start_id {
                Some(s) => s as nat,
                None => acc.cursor,
            };
            if start < acc.cursor {
                Err(SchemaError::IdsMovedBackward)
            } else {
                let address = joined(prefix, name@);
                match place_items(
                    children@,
                    address,
                    Layout { defs: acc.defs, spaces: acc.spaces, cursor: start },
                ) {
                    Ok(a) => Ok(
                        Layout {
                            defs: a.defs,
                            spaces: a.spaces.push(
                                SpaceModel {
                                    address,
                                    start,
                                    end: a.cursor,
                                    first: acc.defs.len(),
                                    last: a.defs.len(),
                                    max_size: max_size(
                                        a.defs.subrange(acc.defs.len() as int, a.defs.len() as int),
                                    ),
                                },
                            ),
                            cursor: a.cursor,
                        },
                    ),
                    Err(e) => Err(e),
                }
            }
        },
    }
}

/// Places a whole schema; the root namespace comes last among the namespaces.
pub open spec fn place_schema(schema: Schema) -> Result<Layout, SchemaError> {
    match place_items(
        schema.children@,
        schema.name@,
        Layout { defs: Seq::empty(), spaces: Seq::empty(), cursor: schema.start_id as nat },
    ) {
        Ok(a) => Ok(
            Layout {
                defs: a.defs,
                spaces: a.spaces.push(
                    SpaceModel {
                        address: schema.name@,
                        start: schema.start_id as nat,
                        end: a.cursor,
                        first: 0,
                        last: a.defs.len(),
                        max_size: max_size(a.defs),
                    },
                ),
                cursor: a.cursor,
            },
        ),
        Err(e) => Err(e),
    }
}

/// No two definitions, and no two namespaces, share an address.
pub open spec fn addresses_distinct(l: Layout) -> bool {
    &&& forall|i: int, j: int|
        0 <= i < j < l.defs.len() ==> #[trigger] l.defs[i].address != #[trigger] l.defs[j].address
    &&& forall|i: int, j: int|
        0 <= i < j < l.spaces.len() ==> #[trigger] l.spaces[i].address
            != #[trigger] l.spaces[j].address
}

/// What building a registry from `schema` gives.
pub open spec fn build_result(schema: Schema) -> Result<Layout, SchemaError> {
    match place_schema(schema) {
        Ok(l) => if addresses_distinct(l) {
            Ok(l)
        } else {
            Err(SchemaError::DuplicateAddress)
        },
        Err(e) => Err(e),
    }
}


// ---------------------------------------------------------------------------
// Facts about placement

/// Ids increase along the definitions, and all lie below the next free id.
pub open spec fn ids_ordered(l: Layout) -> bool {
    &&& forall|i: int, j: int|
        0 <= i < j < l.defs.len() ==> #[trigger] l.defs[i].id < #[trigger] l.defs[j].id
    &&& forall|i: int| 0 <= i < l.defs.len() ==> #[trigger] l.defs[i].id < l.cursor
}

/// What placement keeps and what it extends.
pub open spec fn placed_from(acc: Layout, a: Layout) -> bool {
    &&& ids_ordered(a)
    &&& acc.cursor <= a.cursor
    &&& (acc.cursor <= 0xFFFF ==> a.cursor <= 0xFFFF)
    &&& acc.defs.len() <= a.defs.len()
    &&& a.defs.take(acc.defs.len() as int) == acc.defs
}

proof fn lemma_place_items(items: Seq<SchemaNode>, prefix: Seq<char>, acc: Layout)
    requires
        ids_ordered(acc),
    ensures
        place_items(items, prefix, acc) is Ok ==> placed_from(
            acc,
            place_items(items, prefix, acc)->Ok_0,
        ),
    decreases items,
{
    if items.len() == 0 {
        assert(acc.defs.take(acc.defs.len() as int) =~= acc.defs);
    } else {
        lemma_place_items(items.drop_last(), prefix, acc);
        if let Ok(a) = place_items(items.drop_last(), prefix, acc) {
            lemma_place_node(items.last(), prefix, a);
            if let Ok(b) = place_node(items.last(), prefix, a) {
                assert(b.defs.take(acc.defs.len() as int) =~= b.defs.take(a.defs.len() as int).take(
                    acc.defs.len() as int,
                ));
            }
        }
    }
}

proof fn lemma_place_node(node: SchemaNode, prefix: Seq<char>, acc: Layout)
    requires
        ids_ordered(acc),
    ensures
        place_node(node, prefix, acc) is Ok ==> placed_from(acc, place_node(node, prefix, acc)->Ok_0),
    decreases node,
{
    match node {
        SchemaNode::Leaf { name, address, ty } => {
            if let Ok(a) = place_node(node, prefix, acc) {
                assert(a.defs.take(acc.defs.len() as int) =~= acc.defs);
            }
        },
        SchemaNode::Module { name, start_id, children } => {
            let start = match start_id {
                Some(s) => s as nat,
                None => acc.cursor,
            };
            if start >= acc.cursor {
                let inner = Layout { defs: acc.defs, spaces: acc.spaces, cursor: start };
                lemma_place_items(children@, joined(prefix, name@), inner);
            }
        },
    }
}

// ---------------------------------------------------------------------------
// Definitions and namespaces

/// A telemetry definition: its id, its dotted address, and its value type.
pub struct TelemetryDefinition {
    id: u16,
    address: String,
    ty: TypeDesc,
    byte_size: usize,
}

impl View for TelemetryDefinition {
    type V = DefModel;

    closed spec fn view(&self) -> DefModel {
        DefModel { id: self.id as nat, address: self.address@, ty: self.ty }
    }
}

impl TelemetryDefinition {
    #[verifier::type_invariant]
    closed spec fn inv(self) -> bool {
        wf(self.ty) && self.byte_size == size(self.ty)
    }

    /// The id.
    pub fn id(&self) -> (r: u16)
        ensures
            r as nat == self@.id,
    {
        self.id
    }

    /// The dotted address.
    pub fn address(&self) -> (r: &str)
        ensures
            r@ == self@.address,
    {
        self.address.as_str()
    }

    /// The value type, which is always well-formed.
    pub fn value_type(&self) -> (r: &TypeDesc)
        ensures
            *r == self@.ty,
            wf(*r),
    {
        proof {
            use_type_invariant(self);
        }
        &self.ty
    }

    /// The `BYTE_SIZE` of the value type.
    pub fn byte_size(&self) -> (r: usize)
        ensures
            r == size(self@.ty),
    {
        proof {
            use_type_invariant(self);
        }
        self.byte_size
    }
}

/// A namespace: its address, its id range, and the largest size among its
/// leaves.
pub struct Namespace {
    address: String,
    start: u16,
    end: u16,
    first: usize,
    last: usize,
    max_byte_size: usize,
}

impl View for Namespace {
    type V = SpaceModel;

    closed spec fn view(&self) -> SpaceModel {
        SpaceModel {
            address: self.address@,
            start: self.start as nat,
            end: self.end as nat,
            first: self.first as nat,
            last: self.last as nat,
            max_size: self.max_byte_size as nat,
        }
    }
}

impl Namespace {
    /// The dotted address.
    pub fn address(&self) -> (r: &str)
        ensures
            r@ == self@.address,
    {
        self.address.as_str()
    }

    /// The half-open range of ids that its leaves hold.
    pub fn id_range(&self) -> (r: (u16, u16))
        ensures
            r.0 as nat == self@.start,
            r.1 as nat == self@.end,
    {
        (self.start, self.end)
    }

    /// `MAX_BYTE_SIZE`: the largest value size among its leaves.
    pub fn max_byte_size(&self) -> (r: usize)
        ensures
            r as nat == self@.max_size,
    {
        self.max_byte_size
    }
}

/// The models of a list of definitions.
pub open spec fn def_models(defs: Seq<TelemetryDefinition>) -> Seq<DefModel> {
    defs.map_values(|d: TelemetryDefinition| d@)
}

/// The models of a list of namespaces.
pub open spec fn space_models(spaces: Seq<Namespace>) -> Seq<SpaceModel> {
    spaces.map_values(|n: Namespace| n@)
}


// ---------------------------------------------------------------------------
// Building

/// Once a prefix of the nodes fails to place, the whole list fails alike.
proof fn lemma_place_items_err(items: Seq<SchemaNode>, k: int, prefix: Seq<char>, acc: Layout)
    requires
        0 <= k <= items.len(),
        place_items(items.take(k), prefix, acc) is Err,
    ensures
        place_items(items, prefix, acc) == place_items(items.take(k), prefix, acc),
    decreases items.len(),
{
    if k == items.len() {
        assert(items.take(k) =~= items);
    } else {
        assert(items.drop_last().take(k) =~= items.take(k));
        lemma_place_items_err(items.drop_last(), k, prefix, acc);
    }
}

/// The definitions and namespaces placed so far, and the next free id.
struct Builder {
    defs: Vec<TelemetryDefinition>,
    spaces: Vec<Namespace>,
    cursor: u16,
}

impl Builder {
    spec fn model(&self) -> Layout {
        Layout {
            defs: def_models(self.defs@),
            spaces: space_models(self.spaces@),
            cursor: self.cursor as nat,
        }
    }
}

/// The largest value size among the definitions from `first` on.
fn max_def_size(defs: &Vec<TelemetryDefinition>, first: usize) -> (r: usize)
    requires
        first <= defs@.len(),
    ensures
        r as nat == max_size(def_models(defs@).subrange(first as int, defs@.len() as int)),
{
    let ghost models = def_models(defs@);
    let mut m: usize = 0;
    let mut j: usize = first;
    assert(models.subrange(first as int, first as int) =~= Seq::<DefModel>::empty());
    while j < defs.len()
        invariant
            first <= j <= defs@.len(),
            models == def_models(defs@),
            m as nat == max_size(models.subrange(first as int, j as int)),
        decreases defs@.len() - j,
    {
        let s = defs[j].byte_size();
        proof {
            let sub = models.subrange(first as int, j + 1);
            assert(sub.drop_last() =~= models.subrange(first as int, j as int));
            assert(sub.last() == defs@[j as int]@);
        }
        if s > m {
            m = s;
        }
        j = j + 1;
    }
    m
}

fn place_items_exec(items: Vec<SchemaNode>, prefix: &String, b: &mut Builder) -> (r: Result<(), SchemaError>)
    requires
        ids_ordered(old(b).model()),
    ensures
        match place_items(items@, prefix@, old(b).model()) {
            Ok(a) => r is Ok && final(b).model() == a,
            Err(e) => r == Err::<(), SchemaError>(e),
        },
        r is Ok ==> ids_ordered(final(b).model()),
    decreases items,
{
    let ghost orig = items@;
    let ghost acc0 = b.model();
    let mut rest = items;
    let ghost mut k: int = 0;
    assert(orig.take(0) =~= Seq::<SchemaNode>::empty());
    assert(orig.skip(0) =~= orig);
    while rest.len() > 0
        invariant
            0 <= k <= orig.len(),
            rest@ == orig.skip(k),
            orig == items@,
            acc0 == old(b).model(),
            place_items(orig.take(k), prefix@, acc0) == Ok::<Layout, SchemaError>(b.model()),
            ids_ordered(b.model()),
        decreases rest@.len(),
    {
        let node = rest.remove(0);
        let ghost before = b.model();
        proof {
            assert(node == orig[k]);
            assert(orig.take(k + 1).last() == node);
            assert(rest@ =~= orig.skip(k + 1));
            assert(orig.take(k + 1).drop_last() =~= orig.take(k));
            assert(decreases_to!(items => items@[k]));
            lemma_place_node(node, prefix@, b.model());
        }
        match place_node_exec(node, prefix, b) {
            Err(e) => {
                proof {
                    assert(place_node(node, prefix@, before) == Err::<Layout, SchemaError>(e));
                    assert(place_items(orig.take(k + 1), prefix@, acc0) == Err::<Layout, SchemaError>(e));
                    lemma_place_items_err(orig, k + 1, prefix@, acc0);
                }
                return Err(e);
            },
            Ok(()) => {},
        }
        proof {
            k = k + 1;
        }
    }
    assert(orig.take(k) =~= orig);
    Ok(())
}

fn place_node_exec(node: SchemaNode, prefix: &String, b: &mut Builder) -> (r: Result<(), SchemaError>)
    requires
        ids_ordered(old(b).model()),
    ensures
        match place_node(node, prefix@, old(b).model()) {
            Ok(a) => r is Ok && final(b).model() == a,
            Err(e) => r == Err::<(), SchemaError>(e),
        },
        r is Ok ==> ids_ordered(final(b).model()),
    decreases node,
{
    proof {
        lemma_place_node(node, prefix@, b.model());
    }
    match node {
        SchemaNode::Leaf { name, address, ty } => {
            if b.cursor == 0xFFFF {
                return Err(SchemaError::IdOverflow);
            }
            match ty.checked_size() {
                None => Err(SchemaError::InvalidType),
                Some(sz) => {
                    let addr = match address {
                        Some(a) => join(prefix, a.as_str()),
                        None => {
                            let snake = to_snake_case(name.as_str());
                            join(prefix, snake.as_str())
                        },
                    };
                    let def = TelemetryDefinition { id: b.cursor, address: addr, ty, byte_size: sz };
                    let ghost before = b.defs@;
                    b.defs.push(def);
                    b.cursor = b.cursor + 1;
                    assert(def_models(b.defs@) =~= def_models(before).push(def@));
                    Ok(())
                },
            }
        },
        SchemaNode::Module { name, start_id, children } => {
            let start = match start_id {
                Some(s) => s,
                None => b.cursor,
            };
            if start < b.cursor {
                return Err(SchemaError::IdsMovedBackward);
            }
            let addr = join(prefix, name.as_str());
            let first = b.defs.len();
            b.cursor = start;
            proof {
                lemma_place_items(children@, addr@, b.model());
            }
            match place_items_exec(children, &addr, b) {
                Err(e) => {
                    return Err(e);
                },
                Ok(()) => {},
            }
            let m = max_def_size(&b.defs, first);
            let ns = Namespace {
                address: addr,
                start,
                end: b.cursor,
                first,
                last: b.defs.len(),
                max_byte_size: m,
            };
            let ghost before = b.spaces@;
            b.spaces.push(ns);
            assert(space_models(b.spaces@) =~= space_models(before).push(ns@));
            Ok(())
        },
    }
}


// ---------------------------------------------------------------------------
// The registry

/// The model of a registry.
pub struct RegistryModel {
    pub defs: Seq<DefModel>,
    pub spaces: Seq<SpaceModel>,
}

/// Ids strictly increase along the definitions, and no two definitions, nor
/// two namespaces, share an address.
pub open spec fn registry_wf(m: RegistryModel) -> bool {
    &&& forall|i: int, j: int|
        0 <= i < j < m.defs.len() ==> #[trigger] m.defs[i].id < #[trigger] m.defs[j].id
    &&& forall|i: int, j: int|
        0 <= i < j < m.defs.len() ==> #[trigger] m.defs[i].address != #[trigger] m.defs[j].address
    &&& forall|i: int, j: int|
        0 <= i < j < m.spaces.len() ==> #[trigger] m.spaces[i].address
            != #[trigger] m.spaces[j].address
}

/// The first definition with the given id.
pub open spec fn find_id(defs: Seq<DefModel>, id: nat) -> Option<int>
    decreases defs.len(),
{
    if defs.len() == 0 {
        None
    } else {
        match find_id(defs.drop_last(), id) {
            Some(i) => Some(i),
            None => if defs.last().id == id {
                Some(defs.len() - 1)
            } else {
                None
            },
        }
    }
}

/// The first definition with the given address.
pub open spec fn find_address(defs: Seq<DefModel>, address: Seq<char>) -> Option<int>
    decreases defs.len(),
{
    if defs.len() == 0 {
        None
    } else {
        match find_address(defs.drop_last(), address) {
            Some(i) => Some(i),
            None => if defs.last().address == address {
                Some(defs.len() - 1)
            } else {
                None
            },
        }
    }
}

/// The first namespace with the given address.
pub open spec fn find_space(spaces: Seq<SpaceModel>, address: Seq<char>) -> Option<int>
    decreases spaces.len(),
{
    if spaces.len() == 0 {
        None
    } else {
        match find_space(spaces.drop_last(), address) {
            Some(i) => Some(i),
            None => if spaces.last().address == address {
                Some(spaces.len() - 1)
            } else {
                None
            },
        }
    }
}

/// `find_id` gives the first definition with the id, if any has it.
pub proof fn lemma_find_id(defs: Seq<DefModel>, id: nat)
    ensures
        match find_id(defs, id) {
            Some(i) => 0 <= i < defs.len() && defs[i].id == id && forall|j: int|
                0 <= j < i ==> #[trigger] defs[j].id != id,
            None => forall|j: int| 0 <= j < defs.len() ==> #[trigger] defs[j].id != id,
        },
    decreases defs.len(),
{
    if defs.len() > 0 {
        let dl = defs.drop_last();
        lemma_find_id(dl, id);
        assert forall|j: int| 0 <= j < dl.len() implies #[trigger] dl[j] == defs[j] by {}
        match find_id(dl, id) {
            Some(k) => {
                assert forall|j: int| 0 <= j < k implies #[trigger] defs[j].id != id by {
                    assert(dl[j] == defs[j]);
                }
            },
            None => {
                assert forall|j: int| 0 <= j < defs.len() - 1 implies #[trigger] defs[j].id != id by {
                    assert(dl[j] == defs[j]);
                }
            },
        }
    }
}

proof fn lemma_find_address(defs: Seq<DefModel>, address: Seq<char>)
    ensures
        match find_address(defs, address) {
            Some(i) => 0 <= i < defs.len() && defs[i].address == address && forall|j: int|
                0 <= j < i ==> #[trigger] defs[j].address != address,
            None => forall|j: int| 0 <= j < defs.len() ==> #[trigger] defs[j].address != address,
        },
    decreases defs.len(),
{
    if defs.len() > 0 {
        let dl = defs.drop_last();
        lemma_find_address(dl, address);
        assert forall|j: int| 0 <= j < dl.len() implies #[trigger] dl[j] == defs[j] by {}
        match find_address(dl, address) {
            Some(k) => {
                assert forall|j: int| 0 <= j < k implies #[trigger] defs[j].address != address by {
                    assert(dl[j] == defs[j]);
                }
            },
            None => {
                assert forall|j: int| 0 <= j < defs.len() - 1 implies #[trigger] defs[j].address != address by {
                    assert(dl[j] == defs[j]);
                }
            },
        }
    }
}

proof fn lemma_find_space(spaces: Seq<SpaceModel>, address: Seq<char>)
    ensures
        match find_space(spaces, address) {
            Some(i) => 0 <= i < spaces.len() && spaces[i].address == address && forall|j: int|
                0 <= j < i ==> #[trigger] spaces[j].address != address,
            None => forall|j: int| 0 <= j < spaces.len() ==> #[trigger] spaces[j].address != address,
        },
    decreases spaces.len(),
{
    if spaces.len() > 0 {
        let dl = spaces.drop_last();
        lemma_find_space(dl, address);
        assert forall|j: int| 0 <= j < dl.len() implies #[trigger] dl[j] == spaces[j] by {}
        match find_space(dl, address) {
            Some(k) => {
                assert forall|j: int| 0 <= j < k implies #[trigger] spaces[j].address != address by {
                    assert(dl[j] == spaces[j]);
                }
            },
            None => {
                assert forall|j: int| 0 <= j < spaces.len() - 1 implies #[trigger] spaces[j].address != address by {
                    assert(dl[j] == spaces[j]);
                }
            },
        }
    }
}

/// Every registered leaf is found by its own id and by its own address; an
/// id, or an address, that no leaf holds finds nothing.
pub proof fn lemma_registry_inverse(m: RegistryModel, i: int, id: nat, address: Seq<char>)
    requires
        registry_wf(m),
        0 <= i < m.defs.len(),
    ensures
        find_id(m.defs, m.defs[i].id) == Some(i),
        find_address(m.defs, m.defs[i].address) == Some(i),
        (forall|j: int| 0 <= j < m.defs.len() ==> #[trigger] m.defs[j].id != id) ==> find_id(
            m.defs,
            id,
        ) is None,
        (forall|j: int| 0 <= j < m.defs.len() ==> #[trigger] m.defs[j].address != address)
            ==> find_address(m.defs, address) is None,
{
    lemma_find_id(m.defs, m.defs[i].id);
    lemma_find_address(m.defs, m.defs[i].address);
    lemma_find_id(m.defs, id);
    lemma_find_address(m.defs, address);
    if let Some(k) = find_id(m.defs, m.defs[i].id) {
        if k < i {
            assert(m.defs[k].id < m.defs[i].id);
        }
    }
    if let Some(k) = find_address(m.defs, m.defs[i].address) {
        if k < i {
            assert(m.defs[k].address != m.defs[i].address);
        }
    }
}

/// A registry of telemetry definitions, built once from a schema.
pub struct Registry {
    definitions: Vec<TelemetryDefinition>,
    namespaces: Vec<Namespace>,
}

impl View for Registry {
    type V = RegistryModel;

    closed spec fn view(&self) -> RegistryModel {
        RegistryModel {
            defs: def_models(self.definitions@),
            spaces: space_models(self.namespaces@),
        }
    }
}

/// Whether no two definitions share an address.
fn def_addresses_distinct(defs: &Vec<TelemetryDefinition>) -> (r: bool)
    ensures
        r == forall|i: int, j: int|
            0 <= i < j < defs@.len() ==> #[trigger] def_models(defs@)[i].address
                != #[trigger] def_models(defs@)[j].address,
{
    let ghost m = def_models(defs@);
    let mut j: usize = 0;
    while j < defs.len()
        invariant
            j <= defs@.len(),
            m == def_models(defs@),
            forall|a: int, b: int| 0 <= a < b < j ==> #[trigger] m[a].address != #[trigger] m[b].address,
        decreases defs@.len() - j,
    {
        let mut i: usize = 0;
        while i < j
            invariant
                i <= j < defs@.len(),
                m == def_models(defs@),
                forall|a: int, b: int|
                    0 <= a < b < j ==> #[trigger] m[a].address != #[trigger] m[b].address,
                forall|a: int| 0 <= a < i ==> #[trigger] m[a].address != m[j as int].address,
            decreases j - i,
        {
            if defs[i].address == defs[j].address {
                assert(m[i as int].address == m[j as int].address);
                return false;
            }
            i = i + 1;
        }
        j = j + 1;
    }
    true
}

/// Whether no two namespaces share an address.
fn space_addresses_distinct(spaces: &Vec<Namespace>) -> (r: bool)
    ensures
        r == forall|i: int, j: int|
            0 <= i < j < spaces@.len() ==> #[trigger] space_models(spaces@)[i].address
                != #[trigger] space_models(spaces@)[j].address,
{
    let ghost m = space_models(spaces@);
    let mut j: usize = 0;
    while j < spaces.len()
        invariant
            j <= spaces@.len(),
            m == space_models(spaces@),
            forall|a: int, b: int| 0 <= a < b < j ==> #[trigger] m[a].address != #[trigger] m[b].address,
        decreases spaces@.len() - j,
    {
        let mut i: usize = 0;
        while i < j
            invariant
                i <= j < spaces@.len(),
                m == space_models(spaces@),
                forall|a: int, b: int|
                    0 <= a < b < j ==> #[trigger] m[a].address != #[trigger] m[b].address,
                forall|a: int| 0 <= a < i ==> #[trigger] m[a].address != m[j as int].address,
            decreases j - i,
        {
            if spaces[i].address == spaces[j].address {
                assert(m[i as int].address == m[j as int].address);
                return false;
            }
            i = i + 1;
        }
        j = j + 1;
    }
    true
}

impl Registry {
    /// Builds the registry of a schema: leaves take ids in depth-first
    /// declaration order and dotted addresses under their namespaces.
    pub fn build(schema: Schema) -> (r: Result<Registry, SchemaError>)
        ensures
            match build_result(schema) {
                Ok(l) => r is Ok && r->Ok_0@.defs == l.defs && r->Ok_0@.spaces == l.spaces
                    && registry_wf(r->Ok_0@),
                Err(e) => r == Err::<Registry, SchemaError>(e),
            },
    {
        let ghost s0 = schema;
        let Schema { name, start_id, children } = schema;
        let mut b = Builder { defs: Vec::new(), spaces: Vec::new(), cursor: start_id };
        assert(b.model().defs =~= Seq::<DefModel>::empty());
        assert(b.model().spaces =~= Seq::<SpaceModel>::empty());
        proof {
            lemma_place_items(children@, name@, b.model());
        }
        match place_items_exec(children, &name, &mut b) {
            Err(e) => {
                return Err(e);
            },
            Ok(()) => {},
        }
        let m = max_def_size(&b.defs, 0);
        assert(def_models(b.defs@).subrange(0, b.defs@.len() as int) =~= def_models(b.defs@));
        let root = Namespace {
            address: name,
            start: start_id,
            end: b.cursor,
            first: 0,
            last: b.defs.len(),
            max_byte_size: m,
        };
        let ghost before = b.spaces@;
        b.spaces.push(root);
        assert(space_models(b.spaces@) =~= space_models(before).push(root@));
        assert(s0.children == children && s0.name == name && s0.start_id == start_id);
        assert(place_schema(s0) is Ok);
        assert(place_schema(s0)->Ok_0.defs == def_models(b.defs@));
        assert(place_schema(s0)->Ok_0.spaces == space_models(b.spaces@));
        if !def_addresses_distinct(&b.defs) || !space_addresses_distinct(&b.spaces) {
            return Err(SchemaError::DuplicateAddress);
        }
        Ok(Registry { definitions: b.defs, namespaces: b.spaces })
    }

    /// The definition with the given id.
    pub fn from_id(&self, id: u16) -> (r: Result<&TelemetryDefinition, NotFound>)
        ensures
            match find_id(self@.defs, id as nat) {
                Some(i) => r is Ok && r->Ok_0@ == self@.defs[i],
                None => r is Err,
            },
    {
        proof {
            lemma_find_id(self@.defs, id as nat);
        }
        let mut i: usize = 0;
        while i < self.definitions.len()
            invariant
                i <= self.definitions@.len(),
                forall|j: int| 0 <= j < i ==> #[trigger] self@.defs[j].id != id as nat,
            decreases self.definitions@.len() - i,
        {
            if self.definitions[i].id == id {
                proof {
                    lemma_find_id(self@.defs, id as nat);
                }
                assert(self@.defs[i as int] == self.definitions@[i as int]@);
                assert(self@.defs[i as int].id == id as nat);
                return Ok(&self.definitions[i]);
            }
            i = i + 1;
        }
        proof {
            lemma_find_id(self@.defs, id as nat);
        }
        Err(NotFound)
    }

    /// The definition with the given address.
    pub fn from_address(&self, address: &str) -> (r: Result<&TelemetryDefinition, NotFound>)
        ensures
            match find_address(self@.defs, address@) {
                Some(i) => r is Ok && r->Ok_0@ == self@.defs[i],
                None => r is Err,
            },
    {
        proof {
            lemma_find_address(self@.defs, address@);
        }
        let wanted = address.to_owned();
        let mut i: usize = 0;
        while i < self.definitions.len()
            invariant
                i <= self.definitions@.len(),
                wanted@ == address@,
                forall|j: int| 0 <= j < i ==> #[trigger] self@.defs[j].address != address@,
            decreases self.definitions@.len() - i,
        {
            if self.definitions[i].address == wanted {
                proof {
                    lemma_find_address(self@.defs, address@);
                }
                assert(self@.defs[i as int] == self.definitions@[i as int]@);
                assert(self@.defs[i as int].address == address@);
                return Ok(&self.definitions[i]);
            }
            i = i + 1;
        }
        Err(NotFound)
    }

    /// The namespace with the given address.
    pub fn namespace(&self, address: &str) -> (r: Result<&Namespace, NotFound>)
        ensures
            match find_space(self@.spaces, address@) {
                Some(i) => r is Ok && r->Ok_0@ == self@.spaces[i],
                None => r is Err,
            },
    {
        proof {
            lemma_find_space(self@.spaces, address@);
        }
        let wanted = address.to_owned();
        let mut i: usize = 0;
        while i < self.namespaces.len()
            invariant
                i <= self.namespaces@.len(),
                wanted@ == address@,
                forall|j: int| 0 <= j < i ==> #[trigger] self@.spaces[j].address != address@,
            decreases self.namespaces@.len() - i,
        {
            if self.namespaces[i].address == wanted {
                proof {
                    lemma_find_space(self@.spaces, address@);
                }
                assert(self@.spaces[i as int] == self.namespaces@[i as int]@);
                assert(self@.spaces[i as int].address == address@);
                return Ok(&self.namespaces[i]);
            }
            i = i + 1;
        }
        Err(NotFound)
    }

    /// The number of definitions.
    pub fn len(&self) -> (r: usize)
        ensures
            r == self@.defs.len(),
    {
        self.definitions.len()
    }

    /// The definition at position `index`, in id order.
    pub fn definition(&self, index: usize) -> (r: &TelemetryDefinition)
        requires
            index < self@.defs.len(),
        ensures
            r@ == self@.defs[index as int],
    {
        &self.definitions[index]
    }
}

} // verus!
