use vstd::prelude::*;

use crate::envelope::Envelope;
use crate::error::FerryError;

verus! {

/// The bit pattern of the float 1.0.
pub const ONE_F32_BITS: u32 = 0x3f80_0000;

/// The number of elements in the fixed observation.
pub const OBS_LEN: usize = 10;

/// What the stand-in server does with a message.
pub enum MemReply {
    Send(Envelope),
    Stop,
}

/// A stand-in server that answers every step and reset with a fixed observation of zeros.
pub struct MemServer {}

/// `n` zero floats.
pub open spec fn zeros(n: nat) -> Seq<u32> {
    Seq::new(n, |i: int| 0u32)
}

fn zero_obs() -> (r: Vec<u32>)
    ensures
        r@ == zeros(OBS_LEN as nat),
{
    let mut r: Vec<u32> = Vec::new();
    let mut i: usize = 0;
    while i < OBS_LEN
        invariant
            i <= OBS_LEN,
            r@ == zeros(i as nat),
        decreases OBS_LEN - i,
    {
        r.push(0u32);
        assert(r@ =~= zeros((i + 1) as nat));
        i = i + 1;
    }
    r
}

impl MemServer {
    pub fn new() -> (r: MemServer) {
        MemServer {}
    }

    /// A step gets reward 1.0, no end flags and the zero observation; a reset gets the zero
    /// observation; a close with its flag set stops the server; any other message is a
    /// protocol violation, which ends the server with no reply.
    pub fn respond(&self, msg: &Envelope) -> (r: Result<MemReply, FerryError>)
        ensures
            match msg {
                Envelope::Action { .. } => r matches Ok(MemReply::Send(Envelope::StepReturn {
                    obs,
                    reward,
                    terminated,
                    truncated,
                    info,
                })) && obs@ == zeros(OBS_LEN as nat) && reward == ONE_F32_BITS && !terminated
                    && !truncated && info@.len() == 0,
                Envelope::ResetArgs { .. } => r matches Ok(MemReply::Send(
                    Envelope::ResetReturn { obs, info },
                )) && obs@ == zeros(OBS_LEN as nat) && info@.len() == 0,
                Envelope::Close { flag: true } => r matches Ok(MemReply::Stop),
                _ => r == Err::<MemReply, FerryError>(FerryError::ProtocolViolation),
            },
    {
        match msg {
            Envelope::Action { .. } => Ok(MemReply::Send(
                Envelope::StepReturn {
                    obs: zero_obs(),
                    reward: ONE_F32_BITS,
                    terminated: false,
                    truncated: false,
                    info: Vec::new(),
                },
            )),
            Envelope::ResetArgs { .. } => Ok(MemReply::Send(
                Envelope::ResetReturn { obs: zero_obs(), info: Vec::new() },
            )),
            Envelope::Close { flag: true } => Ok(MemReply::Stop),
            _ => Err(FerryError::ProtocolViolation),
        }
    }
}

} // verus!
