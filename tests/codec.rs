use ferry::backend::{create_close_message, create_reset_args_message};
use ferry::envelope::{decode, encode, Entry, Envelope};
use ferry::error::FerryError;

fn entry(k: &str, v: &str) -> Entry {
    Entry { key: k.as_bytes().to_vec(), value: v.as_bytes().to_vec() }
}

fn bits(v: &[f32]) -> Vec<u32> {
    v.iter().map(|f| f.to_bits()).collect()
}

fn same_entries(a: &[Entry], b: &[Entry]) -> bool {
    a.len() == b.len() && a.iter().zip(b.iter()).all(|(x, y)| x.key == y.key && x.value == y.value)
}

fn same(a: &Envelope, b: &Envelope) -> bool {
    match (a, b) {
        (Envelope::Request, Envelope::Request) => true,
        (Envelope::Action { values: x }, Envelope::Action { values: y }) => x == y,
        (
            Envelope::ResetArgs { seed: s1, options: o1 },
            Envelope::ResetArgs { seed: s2, options: o2 },
        ) => s1 == s2 && same_entries(o1, o2),
        (Envelope::Close { flag: f1 }, Envelope::Close { flag: f2 }) => f1 == f2,
        (
            Envelope::StepReturn { obs: a1, reward: r1, terminated: t1, truncated: u1, info: i1 },
            Envelope::StepReturn { obs: a2, reward: r2, terminated: t2, truncated: u2, info: i2 },
        ) => a1 == a2 && r1 == r2 && t1 == t2 && u1 == u2 && same_entries(i1, i2),
        (
            Envelope::ResetReturn { obs: a1, info: i1 },
            Envelope::ResetReturn { obs: a2, info: i2 },
        ) => a1 == a2 && same_entries(i1, i2),
        _ => false,
    }
}

fn round_trip(e: &Envelope) -> Envelope {
    let bytes = encode(e).expect("encodable");
    decode(&bytes).expect("decodable")
}

#[test]
fn round_trip_request() {
    let e = Envelope::Request;
    assert!(same(&round_trip(&e), &e));
}

#[test]
fn round_trip_action() {
    let e = Envelope::Action { values: bits(&[0.1, -2.5, 3.0e10]) };
    assert!(same(&round_trip(&e), &e));
    let empty = Envelope::Action { values: vec![] };
    assert!(same(&round_trip(&empty), &empty));
}

#[test]
fn round_trip_reset_args() {
    let e = Envelope::ResetArgs { seed: Some(-7), options: vec![entry("mode", "fast"), entry("", "x")] };
    assert!(same(&round_trip(&e), &e));
}

#[test]
fn round_trip_close() {
    for flag in [true, false] {
        let e = Envelope::Close { flag };
        assert!(same(&round_trip(&e), &e));
    }
}

#[test]
fn round_trip_step_return() {
    let e = Envelope::StepReturn {
        obs: bits(&[0.1, 0.2, 0.3]),
        reward: 1.0f32.to_bits(),
        terminated: true,
        truncated: false,
        info: vec![entry("lives", "3")],
    };
    assert!(same(&round_trip(&e), &e));
}

#[test]
fn round_trip_reset_return() {
    let e = Envelope::ResetReturn { obs: bits(&[1.5]), info: vec![] };
    assert!(same(&round_trip(&e), &e));
}

#[test]
fn reset_seed_none_round_trips() {
    let e = create_reset_args_message((-1, vec![]));
    match round_trip(&e) {
        Envelope::ResetArgs { seed, options } => {
            assert_eq!(seed, None);
            assert!(options.is_empty());
        }
        _ => panic!("wrong kind"),
    }
    let bytes = encode(&e).unwrap();
    assert_eq!(bytes, vec![2, 0xff, 0xff, 0xff, 0xff, 0, 0, 0, 0]);
}

#[test]
fn reset_seed_42_round_trips() {
    let e = create_reset_args_message((42, vec![]));
    match round_trip(&e) {
        Envelope::ResetArgs { seed, .. } => assert_eq!(seed, Some(42)),
        _ => panic!("wrong kind"),
    }
}

#[test]
fn seed_minus_one_is_not_encodable() {
    let e = Envelope::ResetArgs { seed: Some(-1), options: vec![] };
    assert_eq!(encode(&e).err(), Some(FerryError::Encoding));
}

#[test]
fn close_encoding_is_exact() {
    assert_eq!(encode(&create_close_message(true)).unwrap(), vec![3, 1]);
    assert_eq!(encode(&Envelope::Request).unwrap(), vec![0]);
}

#[test]
fn action_encoding_is_exact() {
    let e = Envelope::Action { values: vec![0x3f80_0000] };
    assert_eq!(encode(&e).unwrap(), vec![1, 1, 0, 0, 0, 0x00, 0x00, 0x80, 0x3f]);
}

#[test]
fn numeric_array_layout() {
    let e = Envelope::ResetReturn { obs: vec![0x3f80_0000], info: vec![] };
    let b = encode(&e).unwrap();
    let mut expected = vec![5u8, 7, 0, 0, 0];
    expected.extend_from_slice(b"float32");
    expected.extend_from_slice(&[8, 0, 0, 0, 1, 0, 0, 0, 0, 0, 0, 0]);
    expected.extend_from_slice(&[4, 0, 0, 0, 0x00, 0x00, 0x80, 0x3f]);
    expected.extend_from_slice(&[0, 0, 0, 0]);
    assert_eq!(b, expected);
}

#[test]
fn decode_rejects_bad_input() {
    assert_eq!(decode(&vec![]).err(), Some(FerryError::Decoding));
    assert_eq!(decode(&vec![9]).err(), Some(FerryError::Decoding));
    assert_eq!(decode(&vec![3, 2]).err(), Some(FerryError::Decoding));
    assert_eq!(decode(&vec![0, 0]).err(), Some(FerryError::Decoding));
    assert_eq!(decode(&vec![1, 5, 0, 0, 0, 1, 2]).err(), Some(FerryError::Decoding));
    assert_eq!(decode(&vec![1, 0xff, 0xff, 0xff, 0xff]).err(), Some(FerryError::Decoding));
    let mut b = encode(&Envelope::StepReturn {
        obs: vec![1, 2],
        reward: 0,
        terminated: false,
        truncated: false,
        info: vec![entry("a", "b")],
    })
    .unwrap();
    b.pop();
    assert_eq!(decode(&b).err(), Some(FerryError::Decoding));
}
