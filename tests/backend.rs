use ferry::backend::{unwrap_dict, ClientBackend, Effect, Event, Phase, ServerBackend};
use ferry::envelope::{Entry, Envelope};
use ferry::error::FerryError;
use ferry::mem_server::{MemReply, MemServer};

fn bits(v: &[f32]) -> Vec<u32> {
    v.iter().map(|f| f.to_bits()).collect()
}

#[test]
fn server_answers_action_with_step_return() {
    let mut s = ServerBackend::new();
    assert!(matches!(s.start(), Effect::Receive));
    let action = Envelope::Action { values: bits(&[0.1, 0.2]) };
    match s.next(Event::Received(action)) {
        Ok(Effect::Step(v)) => assert_eq!(v, bits(&[0.1, 0.2])),
        _ => panic!("expected a step"),
    }
    let ev = Event::Stepped {
        obs: bits(&[0.1, 0.2, 0.3]),
        reward: 1.0f32.to_bits(),
        terminated: false,
        truncated: false,
        info: vec![],
    };
    match s.next(ev) {
        Ok(Effect::Send(Envelope::StepReturn { obs, reward, terminated, truncated, info })) => {
            assert_eq!(obs, bits(&[0.1, 0.2, 0.3]));
            assert_eq!(f32::from_bits(reward), 1.0);
            assert!(!terminated);
            assert!(!truncated);
            assert!(info.is_empty());
        }
        _ => panic!("expected a step return"),
    }
    assert!(matches!(s.next(Event::Done), Ok(Effect::Receive)));
    assert_eq!(s.phase, Phase::Waiting);
}

#[test]
fn server_close_shuts_env_then_transport() {
    let mut s = ServerBackend::new();
    assert!(matches!(s.next(Event::Received(Envelope::Close { flag: true })), Ok(Effect::CloseEnv)));
    assert!(matches!(s.next(Event::Done), Ok(Effect::CloseTransport)));
    assert!(matches!(s.next(Event::Done), Ok(Effect::Finish)));
    assert_eq!(s.phase, Phase::Terminated);
}

#[test]
fn server_rejects_unexpected_kind() {
    let mut s = ServerBackend::new();
    assert!(matches!(s.next(Event::Received(Envelope::Request)), Err(FerryError::ProtocolViolation)));
    assert_eq!(s.phase, Phase::Terminated);
}

#[test]
fn server_surfaces_environment_failure() {
    let mut s = ServerBackend::new();
    let _ = s.next(Event::Received(Envelope::Action { values: vec![] }));
    assert!(matches!(s.next(Event::Failed), Err(FerryError::Environment)));
}

#[test]
fn client_close_exits_without_trailing_receive() {
    let mut c = ClientBackend::new();
    assert!(matches!(c.start(), Effect::Send(Envelope::Request)));
    assert!(matches!(c.next(Event::Done), Ok(Effect::Receive)));
    let mut env_closes = 0;
    let mut receives = 0;
    let mut effect = c.next(Event::Received(Envelope::Close { flag: true })).unwrap();
    loop {
        match effect {
            Effect::CloseEnv => {
                env_closes += 1;
                effect = c.next(Event::Done).unwrap();
            }
            Effect::Receive => {
                receives += 1;
                effect = c.next(Event::Received(Envelope::Request)).unwrap();
            }
            Effect::Finish => break,
            _ => panic!("unexpected effect"),
        }
    }
    assert_eq!(env_closes, 1);
    assert_eq!(receives, 0);
    assert_eq!(c.phase, Phase::Terminated);
}

#[test]
fn client_cycle_drops_one_frame_after_reply() {
    let mut c = ClientBackend::new();
    let _ = c.next(Event::Done);
    let reset = Envelope::ResetArgs { seed: Some(3), options: vec![] };
    match c.next(Event::Received(reset)) {
        Ok(Effect::Reset { seed, options }) => {
            assert_eq!(seed, Some(3));
            assert!(options.is_empty());
        }
        _ => panic!("expected a reset"),
    }
    let r = c.next(Event::WasReset { obs: bits(&[0.5]), info: vec![] });
    assert!(matches!(r, Ok(Effect::Send(Envelope::ResetReturn { .. }))));
    assert!(matches!(c.next(Event::Done), Ok(Effect::Receive)));
    assert_eq!(c.phase, Phase::AwaitingAck);
    assert!(matches!(c.next(Event::Received(Envelope::Request)), Ok(Effect::Send(Envelope::Request))));
    assert_eq!(c.phase, Phase::Announcing);
}

#[test]
fn unwrap_dict_keeps_last_value_per_key() {
    let e = |k: &str, v: &str| Entry { key: k.as_bytes().to_vec(), value: v.as_bytes().to_vec() };
    let d = unwrap_dict(&vec![e("a", "1"), e("b", "2"), e("a", "3")]);
    assert_eq!(d.len(), 2);
    assert_eq!(d[0].key, b"a".to_vec());
    assert_eq!(d[0].value, b"3".to_vec());
    assert_eq!(d[1].key, b"b".to_vec());
    assert_eq!(d[1].value, b"2".to_vec());
}

#[test]
fn mem_server_replies() {
    let s = MemServer::new();
    match s.respond(&Envelope::Action { values: vec![1] }) {
        Ok(MemReply::Send(Envelope::StepReturn { obs, reward, terminated, truncated, info })) => {
            assert_eq!(obs, vec![0u32; 10]);
            assert_eq!(f32::from_bits(reward), 1.0);
            assert!(!terminated && !truncated && info.is_empty());
        }
        _ => panic!("expected a step return"),
    }
    match s.respond(&Envelope::ResetArgs { seed: None, options: vec![] }) {
        Ok(MemReply::Send(Envelope::ResetReturn { obs, info })) => {
            assert_eq!(obs, vec![0u32; 10]);
            assert!(info.is_empty());
        }
        _ => panic!("expected a reset return"),
    }
    assert!(matches!(s.respond(&Envelope::Close { flag: true }), Ok(MemReply::Stop)));
}

#[test]
fn mem_server_rejects_unexpected_messages() {
    let s = MemServer::new();
    let unexpected = vec![
        Envelope::Request,
        Envelope::Close { flag: false },
        Envelope::StepReturn { obs: vec![], reward: 0, terminated: false, truncated: false, info: vec![] },
        Envelope::ResetReturn { obs: vec![], info: vec![] },
    ];
    for msg in unexpected {
        assert!(matches!(s.respond(&msg), Err(FerryError::ProtocolViolation)));
    }
}
