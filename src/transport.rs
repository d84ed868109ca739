use vstd::prelude::*;

use crate::envelope::{decode, decode_spec, enc, encodable, encode, lemma_round_trip, Envelope};
use crate::error::FerryError;
use crate::mailbox::{Mailbox, SendStatus, TokenPair, mailbox_wf, receive_spec, send_spec};

verus! {

/// A peer's two mailboxes, one for each direction, and whether its resources were released.
///
/// This is an in-process model of the transport: the exclusion and turn-taking laws of the
/// mailbox module are proved of it. A transport over real shared memory and semaphores hands
/// messages over itself with the same steps (the length field helpers, `check_capacity`,
/// `take_payload`, `encode`, `decode`), so those laws are not proved of that running code; such
/// a transport may use this type only for its close-once flag.
pub struct Transport {
    pub outbound: Mailbox,
    pub inbound: Mailbox,
    pub closed: bool,
}

impl Transport {
    pub open spec fn wf(&self) -> bool {
        mailbox_wf(self.outbound@) && mailbox_wf(self.inbound@)
    }

    /// A transport over two empty mailboxes of the given capacity.
    pub fn new(capacity: u32) -> (r: Transport)
        ensures
            r.wf(),
            r.outbound@.capacity == capacity,
            r.inbound@.capacity == capacity,
            !r.closed,
    {
        Transport { outbound: Mailbox::new(capacity), inbound: Mailbox::new(capacity), closed: false }
    }

    /// Encodes the message and sends it on the outbound mailbox.
    pub fn send_message(&mut self, tokens: &mut TokenPair, msg: &Envelope) -> (r: Result<
        SendStatus,
        FerryError,
    >)
        requires
            old(self).wf(),
            old(tokens).wf(),
        ensures
            final(self).wf(),
            final(tokens).wf(),
            final(self).inbound@ == old(self).inbound@,
            final(self).closed == old(self).closed,
            !encodable(msg@) ==> r == Err::<SendStatus, FerryError>(FerryError::Encoding)
                && final(self).outbound@ == old(self).outbound@ && *final(tokens) == *old(tokens),
            encodable(msg@) ==> (final(self).outbound@, *final(tokens), r) == send_spec(
                old(self).outbound@,
                *old(tokens),
                enc(msg@),
            ),
    {
        let bytes = encode(msg)?;
        self.outbound.send(tokens, &bytes)
    }

    /// Receives from the inbound mailbox and decodes; `None` when no data is ready.
    pub fn receive_message(&mut self, tokens: &mut TokenPair) -> (r: Option<
        Result<Envelope, FerryError>,
    >)
        requires
            old(self).wf(),
            old(tokens).wf(),
        ensures
            final(self).wf(),
            final(tokens).wf(),
            final(self).outbound@ == old(self).outbound@,
            final(self).closed == old(self).closed,
            ({
                let (m, t, got) = receive_spec(old(self).inbound@, *old(tokens));
                &&& final(self).inbound@ == m
                &&& *final(tokens) == t
                &&& (got is None <==> r is None)
                &&& (got matches Some(b) ==> match r {
                    Some(Ok(e)) => decode_spec(b) == Some(e@),
                    Some(Err(x)) => decode_spec(b) is None && x == FerryError::Decoding,
                    None => false,
                })
            }),
    {
        let bytes = match self.inbound.receive(tokens) {
            Some(b) => b,
            None => return None,
        };
        let r = decode(&bytes);
        proof {
            match &r {
                Ok(e) => {
                    lemma_round_trip(e@);
                },
                Err(_) => {
                    if decode_spec(bytes@) is Some {
                        let m = choose|m: crate::envelope::Message| encodable(m) && enc(m) == bytes@;
                        assert(encodable(m) && enc(m) == bytes@);
                    }
                },
            }
        }
        Some(r)
    }

    /// Marks the transport closed; true only the first time, when its resources are to be
    /// released.
    pub fn close(&mut self) -> (r: bool)
        ensures
            r == !old(self).closed,
            final(self).closed,
            final(self).outbound@ == old(self).outbound@,
            final(self).inbound@ == old(self).inbound@,
    {
        if self.closed {
            false
        } else {
            self.closed = true;
            true
        }
    }
}

} // verus!
