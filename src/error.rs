use crate::value::{DeserializeError, SerializeError};
use vstd::prelude::*;

verus! {

/// Errors of the storage core.
#[derive(Copy, Clone, Debug, PartialEq, Eq, Structural)]
pub enum Error {
    /// Serialization failed
    Serialize(SerializeError),
    /// Deserialization failed: the stored bytes are corrupt
    Deserialize(DeserializeError),
}

impl From<SerializeError> for Error {
    fn from(value: SerializeError) -> Error {
        Error::Serialize(value)
    }
}

impl vstd::std_specs::convert::FromSpecImpl<SerializeError> for Error {
    open spec fn obeys_from_spec() -> bool {
        true
    }

    open spec fn from_spec(v: SerializeError) -> Error {
        Error::Serialize(v)
    }
}

impl From<DeserializeError> for Error {
    fn from(value: DeserializeError) -> Error {
        Error::Deserialize(value)
    }
}

impl vstd::std_specs::convert::FromSpecImpl<DeserializeError> for Error {
    open spec fn obeys_from_spec() -> bool {
        true
    }

    open spec fn from_spec(v: DeserializeError) -> Error {
        Error::Deserialize(v)
    }
}

} // verus!
