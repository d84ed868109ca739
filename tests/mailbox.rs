use ferry::error::FerryError;
use ferry::mailbox::{check_capacity, length_header, read_length, take_payload, Mailbox, SendStatus, TokenPair};
use ferry::transport::Transport;
use ferry::envelope::Envelope;

#[test]
fn capacity_exceeded_changes_nothing() {
    let mut m = Mailbox::new(8);
    let mut t = TokenPair::new();
    let r = m.send(&mut t, &vec![1u8; 9]);
    assert_eq!(r, Err(FerryError::CapacityExceeded));
    assert_eq!(m.region, vec![0u8; 8]);
    assert_eq!(m.header, vec![0, 0, 0, 0]);
    assert_eq!(t, TokenPair { write_permit: 1, data_ready: 0 });
    assert_eq!(m.send(&mut t, &vec![1u8; 8]), Ok(SendStatus::Sent));
}

#[test]
fn second_send_waits_until_received() {
    let mut m = Mailbox::new(16);
    let mut t = TokenPair::new();
    assert_eq!(m.send(&mut t, &vec![1, 2, 3]), Ok(SendStatus::Sent));
    assert_eq!(m.header, vec![3, 0, 0, 0]);
    assert_eq!(m.send(&mut t, &vec![9, 9]), Ok(SendStatus::WouldBlock));
    assert_eq!(m.receive(&mut t), Some(vec![1, 2, 3]));
    assert_eq!(m.header, vec![0, 0, 0, 0]);
    assert_eq!(m.receive(&mut t), None);
    assert_eq!(m.send(&mut t, &vec![9, 9]), Ok(SendStatus::Sent));
    assert_eq!(m.receive(&mut t), Some(vec![9, 9]));
}

#[test]
fn one_message_in_flight_across_channels() {
    let mut a = Mailbox::new(16);
    let mut b = Mailbox::new(16);
    let mut t = TokenPair::new();
    assert_eq!(a.send(&mut t, &vec![7]), Ok(SendStatus::Sent));
    assert_eq!(b.send(&mut t, &vec![8]), Ok(SendStatus::WouldBlock));
    assert_eq!(b.header, vec![0, 0, 0, 0]);
    assert_eq!(a.receive(&mut t), Some(vec![7]));
    assert_eq!(b.send(&mut t, &vec![8]), Ok(SendStatus::Sent));
    assert_eq!(b.receive(&mut t), Some(vec![8]));
}

#[test]
fn frame_helpers() {
    assert_eq!(length_header(0x0102_0304), vec![4, 3, 2, 1]);
    assert_eq!(read_length(&vec![4, 3, 2, 1]), Some(0x0102_0304));
    assert_eq!(read_length(&vec![4, 3]), None);
    assert_eq!(check_capacity(1025, 1024), Err(FerryError::CapacityExceeded));
    assert_eq!(check_capacity(1024, 1024), Ok(()));
    assert_eq!(take_payload(&vec![5, 6, 7], 2), Ok(vec![5, 6]));
    assert_eq!(take_payload(&vec![5, 6, 7], 4), Err(FerryError::Decoding));
}

#[test]
fn transport_round_trip_and_close_once() {
    let mut me = Transport::new(1024);
    let mut peer = Transport::new(1024);
    let mut t = TokenPair::new();
    assert_eq!(me.send_message(&mut t, &Envelope::Close { flag: true }), Ok(SendStatus::Sent));
    // the peer's inbound mailbox is this side's outbound one
    std::mem::swap(&mut peer.inbound, &mut me.outbound);
    match peer.receive_message(&mut t) {
        Some(Ok(Envelope::Close { flag })) => assert!(flag),
        _ => panic!("expected a close"),
    }
    assert!(peer.receive_message(&mut t).is_none());
    let big = Envelope::Action { values: vec![0; 300] };
    assert_eq!(me.send_message(&mut t, &big), Err(FerryError::CapacityExceeded));
    assert!(me.close());
    assert!(!me.close());
}
