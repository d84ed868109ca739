use vstd::prelude::*;

use crate::error::FerryError;
use crate::wire::{get_u32, lemma_u32_le_injective, prefix_at, put_u32, u32_le};

verus! {

/// The write-permit and data-ready counts of the semaphore pair that governs both channels.
#[derive(Debug, Clone, Copy, PartialEq, Eq, Structural)]
pub struct TokenPair {
    pub write_permit: u32,
    pub data_ready: u32,
}

impl TokenPair {
    /// One token, held as the write permit: exactly one of the two counts is 1.
    pub open spec fn wf(self) -> bool {
        self.write_permit + self.data_ready == 1
    }

    /// The pair as created: write permit 1, data ready 0.
    pub fn new() -> (r: TokenPair)
        ensures
            r == (TokenPair { write_permit: 1, data_ready: 0 }),
    {
        TokenPair { write_permit: 1, data_ready: 0 }
    }
}

/// What a mailbox holds: its capacity, its buffer and its 4-byte length field.
pub struct MailboxView {
    pub capacity: nat,
    pub region: Seq<u8>,
    pub header: Seq<u8>,
}

/// One direction of traffic: a fixed-capacity buffer and a little-endian length field.
pub struct Mailbox {
    pub capacity: usize,
    pub region: Vec<u8>,
    pub header: Vec<u8>,
}

/// The outcome of a send that did not fail.
#[derive(Debug, Clone, Copy, PartialEq, Eq, Structural)]
pub enum SendStatus {
    /// The payload is in the buffer and the data-ready token is released.
    Sent,
    /// The write permit is held elsewhere; nothing was changed and the sender must wait.
    WouldBlock,
}

impl View for Mailbox {
    type V = MailboxView;

    open spec fn view(&self) -> MailboxView {
        MailboxView { capacity: self.capacity as nat, region: self.region@, header: self.header@ }
    }
}

/// The buffer spans the capacity and the length field holds a length within it.
pub open spec fn mailbox_wf(m: MailboxView) -> bool {
    m.region.len() == m.capacity && m.capacity <= u32::MAX && exists|n: u32|
        n <= m.capacity && m.header == u32_le(n)
}

/// The length that the length field holds.
pub open spec fn stored_len(m: MailboxView) -> u32 {
    choose|n: u32| n <= m.capacity && m.header == u32_le(n)
}

/// The message that a receive would hand out.
pub open spec fn stored(m: MailboxView) -> Seq<u8> {
    m.region.subrange(0, stored_len(m) as int)
}

/// The mailbox after `p` is written into it.
pub open spec fn stored_after(m: MailboxView, p: Seq<u8>) -> MailboxView {
    MailboxView {
        capacity: m.capacity,
        region: p + m.region.subrange(p.len() as int, m.region.len() as int),
        header: u32_le(p.len() as u32),
    }
}

/// The mailbox after its message is consumed.
pub open spec fn consumed(m: MailboxView) -> MailboxView {
    MailboxView { header: u32_le(0), ..m }
}

/// Send in the model: a payload over capacity fails and changes nothing; without the write
/// permit the sender waits and nothing changes; otherwise the payload is stored and the
/// token moves from write permit to data ready.
pub open spec fn send_spec(m: MailboxView, t: TokenPair, p: Seq<u8>) -> (
    MailboxView,
    TokenPair,
    Result<SendStatus, FerryError>,
) {
    if p.len() > m.capacity {
        (m, t, Err(FerryError::CapacityExceeded))
    } else if t.write_permit == 0 {
        (m, t, Ok(SendStatus::WouldBlock))
    } else {
        (
            stored_after(m, p),
            TokenPair { write_permit: (t.write_permit - 1) as u32, data_ready: (t.data_ready + 1) as u32 },
            Ok(SendStatus::Sent),
        )
    }
}

/// Receive in the model: without data ready the receiver waits (`None`) and nothing changes;
/// otherwise it takes the stored message, zeroes the length field and releases the permit.
pub open spec fn receive_spec(m: MailboxView, t: TokenPair) -> (
    MailboxView,
    TokenPair,
    Option<Seq<u8>>,
) {
    if t.data_ready == 0 {
        (m, t, None)
    } else {
        (
            consumed(m),
            TokenPair { write_permit: (t.write_permit + 1) as u32, data_ready: (t.data_ready - 1) as u32 },
            Some(stored(m)),
        )
    }
}

proof fn lemma_stored_len(m: MailboxView, n: u32)
    requires
        n <= m.capacity,
        m.header == u32_le(n),
    ensures
        stored_len(m) == n,
{
    let k = stored_len(m);
    assert(k <= m.capacity && m.header == u32_le(k));
    lemma_u32_le_injective(k, n);
}

/// The little-endian length field for a payload of `n` bytes.
pub fn length_header(n: u32) -> (r: Vec<u8>)
    ensures
        r@ == u32_le(n),
{
    let mut r: Vec<u8> = Vec::new();
    put_u32(&mut r, n);
    assert(r@ =~= u32_le(n));
    r
}

/// The length that a 4-byte length field holds.
pub fn read_length(h: &Vec<u8>) -> (r: Option<u32>)
    ensures
        r is Some <==> h@.len() >= 4,
        r matches Some(n) ==> h@.subrange(0, 4) == u32_le(n),
{
    get_u32(h, 0)
}

/// Fails with `CapacityExceeded` when a payload of `len` bytes does not fit `capacity`.
pub fn check_capacity(len: usize, capacity: usize) -> (r: Result<(), FerryError>)
    ensures
        r is Ok <==> len <= capacity,
        r matches Err(e) ==> e == FerryError::CapacityExceeded,
{
    if len > capacity {
        Err(FerryError::CapacityExceeded)
    } else {
        Ok(())
    }
}

/// The first `n` bytes of a buffer, or `Decoding` when the length field claims more than the
/// buffer holds.
pub fn take_payload(region: &Vec<u8>, n: u32) -> (r: Result<Vec<u8>, FerryError>)
    ensures
        r is Ok <==> n <= region@.len(),
        r matches Ok(p) ==> p@ == region@.subrange(0, n as int),
        r matches Err(e) ==> e == FerryError::Decoding,
{
    if n as usize > region.len() {
        return Err(FerryError::Decoding);
    }
    let mut p: Vec<u8> = Vec::new();
    let mut i: usize = 0;
    while i < n as usize
        invariant
            i <= n <= region@.len(),
            p@ == region@.subrange(0, i as int),
        decreases n - i,
    {
        p.push(region[i]);
        assert(region@.subrange(0, i + 1) =~= region@.subrange(0, i as int).push(region@[i as int]));
        i = i + 1;
    }
    Ok(p)
}

impl Mailbox {
    /// An empty mailbox of the given capacity: a zeroed buffer and a zero length field.
    pub fn new(capacity: u32) -> (r: Mailbox)
        ensures
            r@.capacity == capacity,
            r@.region == Seq::new(capacity as nat, |i: int| 0u8),
            r@.header == u32_le(0),
            mailbox_wf(r@),
    {
        let mut region: Vec<u8> = Vec::new();
        let mut i: u32 = 0;
        while i < capacity
            invariant
                i <= capacity,
                region@ == Seq::new(i as nat, |j: int| 0u8),
            decreases capacity - i,
        {
            region.push(0u8);
            assert(region@ =~= Seq::new((i + 1) as nat, |j: int| 0u8));
            i = i + 1;
        }
        let header = length_header(0);
        let r = Mailbox { capacity: capacity as usize, region, header };
        assert(0 <= r@.capacity && r@.header == u32_le(0));
        r
    }

    pub fn capacity(&self) -> (r: usize)
        ensures
            r == self@.capacity,
    {
        self.capacity
    }

    /// Hands `payload` over, as `send_spec` says.
    pub fn send(&mut self, tokens: &mut TokenPair, payload: &Vec<u8>) -> (r: Result<SendStatus, FerryError>)
        requires
            mailbox_wf(old(self)@),
            old(tokens).wf(),
        ensures
            (final(self)@, *final(tokens), r) == send_spec(old(self)@, *old(tokens), payload@),
            mailbox_wf(final(self)@),
            final(tokens).wf(),
    {
        check_capacity(payload.len(), self.capacity)?;
        if tokens.write_permit == 0 {
            return Ok(SendStatus::WouldBlock);
        }
        tokens.write_permit = tokens.write_permit - 1;
        let ghost r0 = self.region@;
        let mut i: usize = 0;
        while i < payload.len()
            invariant
                payload@.len() <= self.capacity,
                self.capacity == old(self).capacity,
                self.header == old(self).header,
                self.region@.len() == r0.len() == self.capacity,
                i <= payload@.len(),
                self.region@ =~= payload@.subrange(0, i as int) + r0.subrange(i as int, r0.len() as int),
            decreases payload@.len() - i,
        {
            self.region.set(i, payload[i]);
            i = i + 1;
        }
        self.header = length_header(payload.len() as u32);
        tokens.data_ready = tokens.data_ready + 1;
        proof {
            assert(payload@.subrange(0, i as int) =~= payload@);
            lemma_stored_len(self@, payload@.len() as u32);
        }
        Ok(SendStatus::Sent)
    }

    /// Takes the stored message out, as `receive_spec` says.
    pub fn receive(&mut self, tokens: &mut TokenPair) -> (r: Option<Vec<u8>>)
        requires
            mailbox_wf(old(self)@),
            old(tokens).wf(),
        ensures
            receive_spec(old(self)@, *old(tokens)) == (final(self)@, *final(tokens), match r {
                Some(p) => Some(p@),
                None => None::<Seq<u8>>,
            }),
            mailbox_wf(final(self)@),
            final(tokens).wf(),
    {
        if tokens.data_ready == 0 {
            return None;
        }
        let n = read_length(&self.header).unwrap();
        proof {
            assert(self.header@.subrange(0, 4) =~= self.header@);
            let k = choose|k: u32| k <= self@.capacity && self@.header == u32_le(k);
            lemma_u32_le_injective(k, n);
            lemma_stored_len(self@, n);
        }
        let p = match take_payload(&self.region, n) {
            Ok(p) => p,
            Err(_) => return None,
        };
        self.header = length_header(0);
        tokens.data_ready = tokens.data_ready - 1;
        tokens.write_permit = tokens.write_permit + 1;
        proof {
            lemma_stored_len(self@, 0);
            assert(self@ == consumed(old(self)@));
        }
        Some(p)
    }
}

proof fn lemma_stored_after(m: MailboxView, p: Seq<u8>)
    requires
        mailbox_wf(m),
        p.len() <= m.capacity,
    ensures
        mailbox_wf(stored_after(m, p)),
        stored(stored_after(m, p)) == p,
{
    let m1 = stored_after(m, p);
    lemma_stored_len(m1, p.len() as u32);
    assert(stored(m1) =~= p);
}

/// A payload longer than the capacity is refused with `CapacityExceeded`, and neither the
/// mailbox nor the tokens change.
pub proof fn lemma_capacity_law(m: MailboxView, t: TokenPair, p: Seq<u8>)
    requires
        p.len() > m.capacity,
    ensures
        send_spec(m, t, p) == (m, t, Err::<SendStatus, FerryError>(FerryError::CapacityExceeded)),
{
}

/// Once a message is sent on a mailbox, a second send on it waits and changes nothing until
/// a receive has taken the first message out whole; then the second send goes through.
pub proof fn lemma_mailbox_exclusion(m: MailboxView, t: TokenPair, p1: Seq<u8>, p2: Seq<u8>)
    requires
        mailbox_wf(m),
        t == (TokenPair { write_permit: 1, data_ready: 0 }),
        p1.len() <= m.capacity,
        p2.len() <= m.capacity,
    ensures
        ({
            let (m1, t1, r1) = send_spec(m, t, p1);
            let (m2, t2, r2) = receive_spec(m1, t1);
            &&& r1 == Ok::<SendStatus, FerryError>(SendStatus::Sent)
            &&& send_spec(m1, t1, p2) == (m1, t1, Ok::<SendStatus, FerryError>(SendStatus::WouldBlock))
            &&& r2 == Some(p1)
            &&& t2 == t
            &&& send_spec(m2, t2, p2).2 == Ok::<SendStatus, FerryError>(SendStatus::Sent)
        }),
{
    lemma_stored_after(m, p1);
}

/// With one token pair for both directions, a send on one mailbox followed by a send on the
/// other waits, leaving the other unchanged, until the first message is received; only one
/// message is in flight at a time.
pub proof fn lemma_turn_taking(
    a: MailboxView,
    b: MailboxView,
    t: TokenPair,
    p: Seq<u8>,
    q: Seq<u8>,
)
    requires
        mailbox_wf(a),
        mailbox_wf(b),
        t == (TokenPair { write_permit: 1, data_ready: 0 }),
        p.len() <= a.capacity,
        q.len() <= b.capacity,
    ensures
        ({
            let (a1, t1, _) = send_spec(a, t, p);
            let (a2, t2, got) = receive_spec(a1, t1);
            &&& send_spec(b, t1, q) == (b, t1, Ok::<SendStatus, FerryError>(SendStatus::WouldBlock))
            &&& got == Some(p)
            &&& send_spec(b, t2, q).2 == Ok::<SendStatus, FerryError>(SendStatus::Sent)
        }),
{
    lemma_stored_after(a, p);
}

} // verus!
