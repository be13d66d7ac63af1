//! A single telemetry value with its definition's id, for sending one value
//! on its own.
use vstd::prelude::*;
use vstd::slice::slice_subrange;
use crate::registry::TelemetryDefinition;
use crate::value::{enc, has_type, lemma_enc_len, size, Value};

verus! {

/// The value does not fit the container, or is not of the definition's type.
#[derive(Clone, Copy, Debug, PartialEq, Eq)]
pub struct UnsupportedValue;

/// The model of a container: the definition's id and the value's encoding.
pub struct ContainerModel {
    pub id: nat,
    pub bytes: Seq<u8>,
}

/// A definition's id and the encoding of one value of it, in a buffer of `N`
/// bytes; `N` is meant to be the `MAX_BYTE_SIZE` of a namespace that holds
/// the definition.
pub struct TelemetryContainer<const N: usize> {
    id: u16,
    storage: [u8; N],
    len: usize,
}

impl<const N: usize> View for TelemetryContainer<N> {
    type V = ContainerModel;

    closed spec fn view(&self) -> ContainerModel {
        ContainerModel { id: self.id as nat, bytes: self.storage@.take(self.len as int) }
    }
}

impl<const N: usize> TelemetryContainer<N> {
    #[verifier::type_invariant]
    closed spec fn inv(self) -> bool {
        self.len <= N
    }

    /// Encodes `value` as a value of `definition`. Fails when the value is
    /// not of the definition's type or its encoding is longer than `N`; a
    /// value of the type always fits when `N` is at least the type's size.
    pub fn new(definition: &TelemetryDefinition, value: &Value) -> (r: Result<Self, UnsupportedValue>)
        ensures
            match r {
                Ok(c) => {
                    &&& has_type(value@, definition@.ty)
                    &&& c@.id == definition@.id
                    &&& c@.bytes == enc(definition@.ty, value@)
                },
                Err(_) => !has_type(value@, definition@.ty) || enc(definition@.ty, value@).len()
                    > N,
            },
            has_type(value@, definition@.ty) && size(definition@.ty) <= N ==> r is Ok,
    {
        let ty = definition.value_type();
        if !ty.admits(value) {
            return Err(UnsupportedValue);
        }
        proof {
            lemma_enc_len(definition@.ty, value@);
        }
        let mut storage = [0u8; N];
        match ty.write(value, &mut storage) {
            Err(_) => Err(UnsupportedValue),
            Ok(len) => {
                assert(storage@.take(len as int) =~= enc(definition@.ty, value@));
                Ok(TelemetryContainer { id: definition.id(), storage, len })
            },
        }
    }

    /// The definition's id.
    pub fn id(&self) -> (r: u16)
        ensures
            r as nat == self@.id,
    {
        self.id
    }

    /// The encoded value: as many bytes as were written.
    pub fn bytes(&self) -> (r: &[u8])
        ensures
            r@ == self@.bytes,
    {
        proof {
            use_type_invariant(self);
        }
        slice_subrange(self.storage.as_slice(), 0, self.len)
    }
}

} // verus!
