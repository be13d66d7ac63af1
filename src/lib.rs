//! A compact, self-describing binary telemetry protocol: a byte-exact value
//! codec, a hierarchical registry of telemetry definitions, and a framing
//! layer that packs a chosen set of fields into one checked frame.

pub mod bitfield;
pub mod value;
pub mod registry;
pub mod beacon;
pub mod container;

pub use bitfield::Bitfield;
pub use value::{CodecError, Primitive, TypeDesc, Value};
pub use registry::{
    Namespace, NotFound, Registry, Schema, SchemaError, SchemaNode, TelemetryDefinition,
};
pub use beacon::{Beacon, FieldError, InsertError, LayoutError, ParseError, HEADER_LEN};
pub use container::{TelemetryContainer, UnsupportedValue};
