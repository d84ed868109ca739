use vstd::prelude::*;

use crate::envelope::{Entry, Envelope, Message, entries_view};
use crate::error::FerryError;
use crate::wire::{bytes_equal, clone_bytes};

verus! {

/// The mapping that a list of entries stands for: a later entry for a key replaces an earlier.
pub open spec fn dict_map(d: Seq<(Seq<u8>, Seq<u8>)>) -> Map<Seq<u8>, Seq<u8>>
    decreases d.len(),
{
    if d.len() == 0 {
        Map::empty()
    } else {
        dict_map(d.drop_last()).insert(d.last().0, d.last().1)
    }
}

/// No key occurs twice.
pub open spec fn keys_distinct(d: Seq<(Seq<u8>, Seq<u8>)>) -> bool {
    forall|i: int, j: int| 0 <= i < j < d.len() ==> (#[trigger] d[i]).0 != (#[trigger] d[j]).0
}

proof fn lemma_dict_map_update(d: Seq<(Seq<u8>, Seq<u8>)>, j: int, v: Seq<u8>)
    requires
        keys_distinct(d),
        0 <= j < d.len(),
    ensures
        dict_map(d.update(j, (d[j].0, v))) == dict_map(d).insert(d[j].0, v),
    decreases d.len(),
{
    let e = d.update(j, (d[j].0, v));
    if j == d.len() - 1 {
        assert(e.drop_last() =~= d.drop_last());
        assert(dict_map(e) =~= dict_map(d).insert(d[j].0, v));
    } else {
        let p = d.drop_last();
        assert(keys_distinct(p)) by {
            assert forall|a: int, b: int| 0 <= a < b < p.len() implies (#[trigger] p[a]).0 != (
            #[trigger] p[b]).0 by {
                assert(p[a] == d[a] && p[b] == d[b]);
            }
        }
        lemma_dict_map_update(p, j, v);
        assert(e.drop_last() =~= p.update(j, (p[j].0, v)));
        assert(d[j].0 != d[d.len() - 1].0);
        assert(dict_map(e) =~= dict_map(d).insert(d[j].0, v));
    }
}

proof fn lemma_dict_map_push_new(d: Seq<(Seq<u8>, Seq<u8>)>, k: Seq<u8>, v: Seq<u8>)
    requires
        keys_distinct(d),
        forall|i: int| 0 <= i < d.len() ==> (#[trigger] d[i]).0 != k,
    ensures
        keys_distinct(d.push((k, v))),
        dict_map(d.push((k, v))) == dict_map(d).insert(k, v),
{
    assert(d.push((k, v)).drop_last() =~= d);
    let e = d.push((k, v));
    assert forall|a: int, b: int| 0 <= a < b < e.len() implies (#[trigger] e[a]).0 != (
    #[trigger] e[b]).0 by {
        if b == d.len() {
            assert(e[a] == d[a]);
        } else {
            assert(e[a] == d[a] && e[b] == d[b]);
        }
    }
}

/// Turns a wire map into a mapping: one entry per key, holding the key's last value.
pub fn unwrap_dict(pb_dict: &Vec<Entry>) -> (r: Vec<Entry>)
    ensures
        keys_distinct(entries_view(r@)),
        dict_map(entries_view(r@)) == dict_map(entries_view(pb_dict@)),
{
    let ghost src = entries_view(pb_dict@);
    let mut map: Vec<Entry> = Vec::new();
    let mut i: usize = 0;
    while i < pb_dict.len()
        invariant
            i <= pb_dict@.len(),
            src == entries_view(pb_dict@),
            keys_distinct(entries_view(map@)),
            dict_map(entries_view(map@)) == dict_map(src.subrange(0, i as int)),
        decreases pb_dict@.len() - i,
    {
        let ghost before = entries_view(map@);
        let key = &pb_dict[i].key;
        let value = clone_bytes(&pb_dict[i].value);
        assert(src[i as int] == (pb_dict@[i as int].key@, pb_dict@[i as int].value@));
        assert(src.subrange(0, i + 1).drop_last() =~= src.subrange(0, i as int));
        let mut j: usize = 0;
        let mut found = false;
        while j < map.len() && !found
            invariant
                j <= map@.len(),
                entries_view(map@) == before,
                found ==> j < map@.len() && before[j as int].0 == key@,
                forall|k: int| 0 <= k < j ==> (#[trigger] before[k]).0 != key@,
            decreases map@.len() - j + (if found { 0int } else { 1int }),
        {
            assert(before[j as int] == (map@[j as int].key@, map@[j as int].value@));
            if bytes_equal(&map[j].key, key) {
                found = true;
            } else {
                j = j + 1;
            }
        }
        if found {
            let old_key = clone_bytes(&map[j].key);
            proof {
                lemma_dict_map_update(before, j as int, value@);
            }
            map.set(j, Entry { key: old_key, value });
            proof {
                assert(entries_view(map@) =~= before.update(j as int, (before[j as int].0, value@)));
                assert forall|a: int, b: int| 0 <= a < b < entries_view(map@).len() implies (
                #[trigger] entries_view(map@)[a]).0 != (#[trigger] entries_view(map@)[b]).0 by {
                    assert(entries_view(map@)[a].0 == before[a].0);
                    assert(entries_view(map@)[b].0 == before[b].0);
                }
            }
        } else {
            let new_key = clone_bytes(key);
            proof {
                lemma_dict_map_push_new(before, key@, value@);
            }
            map.push(Entry { key: new_key, value });
            assert(entries_view(map@) =~= before.push((key@, value@)));
        }
        i = i + 1;
    }
    assert(src.subrange(0, i as int) =~= src);
    map
}

/// The reply to a step: observation, reward, the two end flags and the info map.
pub fn create_step_return_message(step_return: (Vec<u32>, u32, bool, bool, Vec<Entry>)) -> (r:
    Envelope)
    ensures
        r == (Envelope::StepReturn {
            obs: step_return.0,
            reward: step_return.1,
            terminated: step_return.2,
            truncated: step_return.3,
            info: step_return.4,
        }),
{
    let (obs, reward, terminated, truncated, info) = step_return;
    Envelope::StepReturn { obs, reward, terminated, truncated, info }
}

/// The reply to a reset: observation and info map.
pub fn create_reset_return_message(reset_return: (Vec<u32>, Vec<Entry>)) -> (r: Envelope)
    ensures
        r == (Envelope::ResetReturn { obs: reset_return.0, info: reset_return.1 }),
{
    let (obs, info) = reset_return;
    Envelope::ResetReturn { obs, info }
}

/// A reset command from a seed word, where -1 stands for no seed, and options.
pub fn create_reset_args_message(reset_args: (i32, Vec<Entry>)) -> (r: Envelope)
    ensures
        r@ == Message::ResetArgs(
            if reset_args.0 == -1 {
                None
            } else {
                Some(reset_args.0)
            },
            entries_view(reset_args.1@),
        ),
{
    let (seed, options) = reset_args;
    let seed = if seed == -1 {
        None
    } else {
        Some(seed)
    };
    Envelope::ResetArgs { seed, options }
}

/// A step command carrying the action values.
pub fn create_action_message(action: Vec<u32>) -> (r: Envelope)
    ensures
        r@ == Message::Action(action@),
{
    Envelope::Action { values: action }
}

/// A close command with the given flag.
pub fn create_close_message(close: bool) -> (r: Envelope)
    ensures
        r@ == Message::Close(close),
{
    Envelope::Close { flag: close }
}

/// What the driver of a backend reports back after carrying out an effect.
pub enum Event {
    /// A message came in.
    Received(Envelope),
    /// The environment stepped.
    Stepped { obs: Vec<u32>, reward: u32, terminated: bool, truncated: bool, info: Vec<Entry> },
    /// The environment was reset.
    WasReset { obs: Vec<u32>, info: Vec<Entry> },
    /// A send or a close finished.
    Done,
    /// The environment reported a failure.
    Failed,
}

/// What a backend asks its driver to do next.
pub enum Effect {
    Send(Envelope),
    Receive,
    Step(Vec<u32>),
    Reset { seed: Option<i32>, options: Vec<Entry> },
    CloseEnv,
    CloseTransport,
    /// The loop is over.
    Finish,
}

/// Where a backend stands in its loop.
#[derive(Debug, Clone, Copy, PartialEq, Eq, Structural)]
pub enum Phase {
    /// The client is announcing that it is ready.
    Announcing,
    /// Waiting for a command.
    Waiting,
    Stepping,
    Resetting,
    /// Sending a step's or a reset's result.
    Replying,
    /// The client waits for the frame that follows its reply, and drops it.
    AwaitingAck,
    ClosingEnv,
    ClosingTransport,
    Terminated,
}

/// What a command received while waiting leads to: the environment's step, its reset with
/// the options as a mapping, or its close; anything else ends the loop with a protocol
/// violation.
pub open spec fn dispatch_spec(msg: Envelope, np: Phase, r: Result<Effect, FerryError>) -> bool {
    match msg {
        Envelope::Action { values } => np == Phase::Stepping && r == Ok::<Effect, FerryError>(
            Effect::Step(values),
        ),
        Envelope::ResetArgs { seed, options } => np == Phase::Resetting && (r matches Ok(
            Effect::Reset { seed: s, options: o },
        ) && s == seed && keys_distinct(entries_view(o@)) && dict_map(entries_view(o@))
            == dict_map(entries_view(options@))),
        Envelope::Close { flag: true } => np == Phase::ClosingEnv && r == Ok::<Effect, FerryError>(
            Effect::CloseEnv,
        ),
        _ => np == Phase::Terminated && r == Err::<Effect, FerryError>(
            FerryError::ProtocolViolation,
        ),
    }
}

/// The reply to the environment's result: a step's result while stepping, a reset's while
/// resetting, a failure of the environment as such, anything else a protocol violation.
pub open spec fn reply_spec(p: Phase, ev: Event, np: Phase, r: Result<Effect, FerryError>) -> bool {
    match ev {
        Event::Stepped { obs, reward, terminated, truncated, info } => if p == Phase::Stepping {
            np == Phase::Replying && r == Ok::<Effect, FerryError>(
                Effect::Send(Envelope::StepReturn { obs, reward, terminated, truncated, info }),
            )
        } else {
            np == Phase::Terminated && r == Err::<Effect, FerryError>(FerryError::ProtocolViolation)
        },
        Event::WasReset { obs, info } => if p == Phase::Resetting {
            np == Phase::Replying && r == Ok::<Effect, FerryError>(
                Effect::Send(Envelope::ResetReturn { obs, info }),
            )
        } else {
            np == Phase::Terminated && r == Err::<Effect, FerryError>(FerryError::ProtocolViolation)
        },
        Event::Failed => np == Phase::Terminated && r == Err::<Effect, FerryError>(
            FerryError::Environment,
        ),
        _ => np == Phase::Terminated && r == Err::<Effect, FerryError>(
            FerryError::ProtocolViolation,
        ),
    }
}

fn dispatch(msg: Envelope) -> (r: (Phase, Result<Effect, FerryError>))
    ensures
        dispatch_spec(msg, r.0, r.1),
{
    match msg {
        Envelope::Action { values } => (Phase::Stepping, Ok(Effect::Step(values))),
        Envelope::ResetArgs { seed, options } => {
            let options = unwrap_dict(&options);
            (Phase::Resetting, Ok(Effect::Reset { seed, options }))
        },
        Envelope::Close { flag } => {
            if flag {
                (Phase::ClosingEnv, Ok(Effect::CloseEnv))
            } else {
                (Phase::Terminated, Err(FerryError::ProtocolViolation))
            }
        },
        _ => (Phase::Terminated, Err(FerryError::ProtocolViolation)),
    }
}

fn reply(p: Phase, ev: Event) -> (r: (Phase, Result<Effect, FerryError>))
    ensures
        reply_spec(p, ev, r.0, r.1),
{
    match ev {
        Event::Stepped { obs, reward, terminated, truncated, info } => {
            if p == Phase::Stepping {
                let msg = create_step_return_message((obs, reward, terminated, truncated, info));
                (Phase::Replying, Ok(Effect::Send(msg)))
            } else {
                (Phase::Terminated, Err(FerryError::ProtocolViolation))
            }
        },
        Event::WasReset { obs, info } => {
            if p == Phase::Resetting {
                let msg = create_reset_return_message((obs, info));
                (Phase::Replying, Ok(Effect::Send(msg)))
            } else {
                (Phase::Terminated, Err(FerryError::ProtocolViolation))
            }
        },
        Event::Failed => (Phase::Terminated, Err(FerryError::Environment)),
        _ => (Phase::Terminated, Err(FerryError::ProtocolViolation)),
    }
}

/// The server's loop: receive a command, carry it out, send the result, and again, until a
/// close shuts the environment and then the transport.
pub open spec fn server_spec(p: Phase, ev: Event, np: Phase, r: Result<Effect, FerryError>) -> bool {
    match p {
        Phase::Waiting => match ev {
            Event::Received(msg) => dispatch_spec(msg, np, r),
            _ => np == Phase::Terminated && r == Err::<Effect, FerryError>(
                FerryError::ProtocolViolation,
            ),
        },
        Phase::Stepping | Phase::Resetting => reply_spec(p, ev, np, r),
        Phase::Replying => match ev {
            Event::Done => np == Phase::Waiting && r == Ok::<Effect, FerryError>(Effect::Receive),
            _ => np == Phase::Terminated && r == Err::<Effect, FerryError>(
                FerryError::ProtocolViolation,
            ),
        },
        Phase::ClosingEnv => match ev {
            Event::Done => np == Phase::ClosingTransport && r == Ok::<Effect, FerryError>(
                Effect::CloseTransport,
            ),
            Event::Failed => np == Phase::Terminated && r == Err::<Effect, FerryError>(
                FerryError::Environment,
            ),
            _ => np == Phase::Terminated && r == Err::<Effect, FerryError>(
                FerryError::ProtocolViolation,
            ),
        },
        Phase::ClosingTransport => match ev {
            Event::Done => np == Phase::Terminated && r == Ok::<Effect, FerryError>(Effect::Finish),
            _ => np == Phase::Terminated && r == Err::<Effect, FerryError>(
                FerryError::ProtocolViolation,
            ),
        },
        _ => np == Phase::Terminated && r == Err::<Effect, FerryError>(
            FerryError::ProtocolViolation,
        ),
    }
}

/// The client's loop: announce readiness with a request, receive a command, carry it out,
/// send the result, then receive one more frame and drop it; a close shuts the environment and
/// ends the loop with no further receive.
pub open spec fn client_spec(p: Phase, ev: Event, np: Phase, r: Result<Effect, FerryError>) -> bool {
    match p {
        Phase::Announcing => match ev {
            Event::Done => np == Phase::Waiting && r == Ok::<Effect, FerryError>(Effect::Receive),
            _ => np == Phase::Terminated && r == Err::<Effect, FerryError>(
                FerryError::ProtocolViolation,
            ),
        },
        Phase::Waiting => match ev {
            Event::Received(msg) => dispatch_spec(msg, np, r),
            _ => np == Phase::Terminated && r == Err::<Effect, FerryError>(
                FerryError::ProtocolViolation,
            ),
        },
        Phase::Stepping | Phase::Resetting => reply_spec(p, ev, np, r),
        Phase::Replying => match ev {
            Event::Done => np == Phase::AwaitingAck && r == Ok::<Effect, FerryError>(
                Effect::Receive,
            ),
            _ => np == Phase::Terminated && r == Err::<Effect, FerryError>(
                FerryError::ProtocolViolation,
            ),
        },
        Phase::AwaitingAck => match ev {
            Event::Received(_) => np == Phase::Announcing && r == Ok::<Effect, FerryError>(
                Effect::Send(Envelope::Request),
            ),
            _ => np == Phase::Terminated && r == Err::<Effect, FerryError>(
                FerryError::ProtocolViolation,
            ),
        },
        Phase::ClosingEnv => match ev {
            Event::Done => np == Phase::Terminated && r == Ok::<Effect, FerryError>(Effect::Finish),
            Event::Failed => np == Phase::Terminated && r == Err::<Effect, FerryError>(
                FerryError::Environment,
            ),
            _ => np == Phase::Terminated && r == Err::<Effect, FerryError>(
                FerryError::ProtocolViolation,
            ),
        },
        _ => np == Phase::Terminated && r == Err::<Effect, FerryError>(
            FerryError::ProtocolViolation,
        ),
    }
}

/// The server role's state machine.
pub struct ServerBackend {
    pub phase: Phase,
}

impl ServerBackend {
    /// A server that begins by waiting for a command.
    pub fn new() -> (r: ServerBackend)
        ensures
            r.phase == Phase::Waiting,
    {
        ServerBackend { phase: Phase::Waiting }
    }

    /// The first thing to do: receive a command.
    pub fn start(&self) -> (r: Effect)
        ensures
            r == Effect::Receive,
    {
        Effect::Receive
    }

    /// Takes the outcome of the last effect and says what to do next, as `server_spec` says.
    pub fn next(&mut self, ev: Event) -> (r: Result<Effect, FerryError>)
        ensures
            server_spec(old(self).phase, ev, final(self).phase, r),
    {
        let (np, r) = match self.phase {
            Phase::Waiting => match ev {
                Event::Received(msg) => dispatch(msg),
                _ => (Phase::Terminated, Err(FerryError::ProtocolViolation)),
            },
            Phase::Stepping | Phase::Resetting => reply(self.phase, ev),
            Phase::Replying => match ev {
                Event::Done => (Phase::Waiting, Ok(Effect::Receive)),
                _ => (Phase::Terminated, Err(FerryError::ProtocolViolation)),
            },
            Phase::ClosingEnv => match ev {
                Event::Done => (Phase::ClosingTransport, Ok(Effect::CloseTransport)),
                Event::Failed => (Phase::Terminated, Err(FerryError::Environment)),
                _ => (Phase::Terminated, Err(FerryError::ProtocolViolation)),
            },
            Phase::ClosingTransport => match ev {
                Event::Done => (Phase::Terminated, Ok(Effect::Finish)),
                _ => (Phase::Terminated, Err(FerryError::ProtocolViolation)),
            },
            _ => (Phase::Terminated, Err(FerryError::ProtocolViolation)),
        };
        self.phase = np;
        r
    }
}

/// The client role's state machine.
pub struct ClientBackend {
    pub phase: Phase,
}

impl ClientBackend {
    /// A client that begins by announcing that it is ready.
    pub fn new() -> (r: ClientBackend)
        ensures
            r.phase == Phase::Announcing,
    {
        ClientBackend { phase: Phase::Announcing }
    }

    /// The first thing to do: send a request.
    pub fn start(&self) -> (r: Effect)
        ensures
            r == Effect::Send(Envelope::Request),
    {
        Effect::Send(Envelope::Request)
    }

    /// Takes the outcome of the last effect and says what to do next, as `client_spec` says.
    pub fn next(&mut self, ev: Event) -> (r: Result<Effect, FerryError>)
        ensures
            client_spec(old(self).phase, ev, final(self).phase, r),
    {
        let (np, r) = match self.phase {
            Phase::Announcing => match ev {
                Event::Done => (Phase::Waiting, Ok(Effect::Receive)),
                _ => (Phase::Terminated, Err(FerryError::ProtocolViolation)),
            },
            Phase::Waiting => match ev {
                Event::Received(msg) => dispatch(msg),
                _ => (Phase::Terminated, Err(FerryError::ProtocolViolation)),
            },
            Phase::Stepping | Phase::Resetting => reply(self.phase, ev),
            Phase::Replying => match ev {
                Event::Done => (Phase::AwaitingAck, Ok(Effect::Receive)),
                _ => (Phase::Terminated, Err(FerryError::ProtocolViolation)),
            },
            Phase::AwaitingAck => match ev {
                Event::Received(_) => (Phase::Announcing, Ok(Effect::Send(Envelope::Request))),
                _ => (Phase::Terminated, Err(FerryError::ProtocolViolation)),
            },
            Phase::ClosingEnv => match ev {
                Event::Done => (Phase::Terminated, Ok(Effect::Finish)),
                Event::Failed => (Phase::Terminated, Err(FerryError::Environment)),
                _ => (Phase::Terminated, Err(FerryError::ProtocolViolation)),
            },
            _ => (Phase::Terminated, Err(FerryError::ProtocolViolation)),
        };
        self.phase = np;
        r
    }
}

} // verus!
