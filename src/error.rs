use vstd::prelude::*;

verus! {

/// What can go wrong in the transport, the codec and the protocol.
#[derive(Debug, Clone, Copy, PartialEq, Eq, Structural)]
pub enum FerryError {
    /// A shared region or a semaphore could not be set up.
    TransportInit,
    /// An outbound payload is larger than the channel's capacity.
    CapacityExceeded,
    /// A message cannot be put on the wire.
    Encoding,
    /// Bytes are not the encoding of any message.
    Decoding,
    /// The environment reported a failure.
    Environment,
    /// A message arrived in a state that does not expect it.
    ProtocolViolation,
}

} // verus!
