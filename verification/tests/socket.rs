use std::collections::VecDeque;

use kestrel::{Inbound, InEvent, MessageType, Outgoing, PeerAddr, RemoteStatus};
use kestrel::{Socket, SocketError, UdpMessage};

fn addr(last: u32, port: u16) -> PeerAddr {
    PeerAddr::V4 { ip: 0x7f00_0000 + last, port }
}

fn inbound(outgoing: Outgoing, from: PeerAddr) -> VecDeque<Inbound> {
    outgoing.datagrams.into_iter().map(|datagram| (datagram, from)).collect()
}

fn raw(bytes: &[u8], from: PeerAddr) -> Inbound {
    (UdpMessage::new(bytes.to_vec().into_boxed_slice()), from)
}

fn payloads(messages: &VecDeque<Box<[u8]>>) -> Vec<Vec<u8>> {
    messages.iter().map(|m| m.to_vec()).collect()
}

#[test]
fn new_socket_knows_no_peer() {
    let mut socket = Socket::new();
    assert!(socket.remote(0).is_none());
    assert!(socket.remote_of(&addr(1, 1)).is_none());
    assert!(matches!(
        socket.receive_all_messages_from(0),
        Err(SocketError::InvalidRemoteId(0))
    ));
    let (events, received) = socket.receive_all_messages(VecDeque::new());
    assert!(events.is_empty());
    assert!(received.is_empty());
}

#[test]
fn try_connect_hands_out_ids_in_rising_order() {
    let mut socket = Socket::new();
    assert_eq!(socket.try_connect(addr(1, 5000)), Some(0));
    assert_eq!(socket.try_connect(addr(2, 5000)), Some(1));
    assert_eq!(socket.try_connect(addr(1, 5001)), Some(2));
    let v6 = PeerAddr::V6 { ip6: 1, port: 5000, flowinfo: 0, scope_id: 0 };
    assert_eq!(socket.try_connect(v6), Some(3));
    let remote = socket.remote(1).unwrap();
    assert_eq!(remote.id(), 1);
    assert_eq!(remote.remote_socket_addr(), addr(2, 5000));
    assert_eq!(remote.status(), RemoteStatus::NotStarted);
    assert_eq!(remote.next_seq_id(), 0);
    assert_eq!(socket.remote_of(&addr(1, 5001)), Some(2));
    assert_eq!(socket.remote_of(&v6), Some(3));
    assert_eq!(socket.remote_of(&addr(3, 5000)), None);
}

#[test]
fn try_connect_to_a_known_address_gives_the_known_peer() {
    let mut socket = Socket::new();
    assert_eq!(socket.try_connect(addr(1, 5000)), Some(0));
    assert_eq!(socket.try_connect(addr(1, 5000)), Some(0));
    assert_eq!(socket.try_connect(addr(2, 5000)), Some(1));
    assert!(socket.remote(2).is_none());
}

#[test]
fn send_message_to_an_unknown_peer_fails() {
    let mut socket = Socket::new();
    socket.try_connect(addr(1, 1)).unwrap();
    let r = socket.send_message(7, &[1], MessageType::Forgettable, 0);
    assert!(matches!(r, Err(SocketError::InvalidRemoteId(7))));
    assert_eq!(socket.remote(0).unwrap().next_seq_id(), 0);
}

#[test]
fn oversize_message_is_rejected_and_nothing_is_sent() {
    let mut socket = Socket::new();
    let id = socket.try_connect(addr(1, 1)).unwrap();
    let message = vec![0u8; 64 * 1280 + 1];
    let r = socket.send_message(id, &message, MessageType::KeyMessage, 0);
    assert!(matches!(r, Err(SocketError::TooLarge)));
    assert_eq!(socket.remote(id).unwrap().next_seq_id(), 0);
    let largest = vec![0u8; 64 * 1280];
    let outgoing = socket.send_message(id, &largest, MessageType::KeyMessage, 0).unwrap();
    assert_eq!(outgoing.datagrams.len(), 64);
    assert_eq!(socket.remote(id).unwrap().next_seq_id(), 1);
}

#[test]
fn send_message_gives_the_datagrams_of_the_message() {
    let mut socket = Socket::new();
    socket.try_connect(addr(9, 9)).unwrap();
    let id = socket.try_connect(addr(1, 5213)).unwrap();
    let outgoing = socket.send_message(id, &[5], MessageType::Forgettable, 0).unwrap();
    assert_eq!(outgoing.to, addr(1, 5213));
    assert_eq!(outgoing.datagrams.len(), 1);
    assert_eq!(outgoing.datagrams[0].as_bytes(), &[237u8, 6, 43, 241, 0, 0, 0, 0, 0, 0, 5]);

    let message = vec![0u8; 2048];
    let outgoing = socket.send_message(id, &message, MessageType::Droppable, 3).unwrap();
    assert_eq!(outgoing.datagrams.len(), 2);
    assert_eq!(outgoing.datagrams[0].as_bytes().len(), 1290);
    assert_eq!(outgoing.datagrams[1].as_bytes().len(), 778);
    // sequence id 1, fragment 0 and 1 of 2
    assert_eq!(&outgoing.datagrams[0].as_bytes()[4..10], &[0u8, 0, 0, 1, 0, 1]);
    assert_eq!(&outgoing.datagrams[1].as_bytes()[4..10], &[0u8, 0, 0, 1, 1, 1]);
}

#[test]
fn sequence_id_advances_by_one_for_each_message_sent() {
    let mut socket = Socket::new();
    let first = socket.try_connect(addr(1, 1)).unwrap();
    let second = socket.try_connect(addr(2, 2)).unwrap();
    for n in 0..5u32 {
        assert_eq!(socket.remote(first).unwrap().next_seq_id(), n);
        let outgoing = socket.send_message(first, &[1, 2, 3], MessageType::Forgettable, 0).unwrap();
        assert_eq!(&outgoing.datagrams[0].as_bytes()[4..8], &n.to_be_bytes());
    }
    assert_eq!(socket.remote(first).unwrap().next_seq_id(), 5);
    assert_eq!(socket.remote(second).unwrap().next_seq_id(), 0);
    // a failed send does not count
    assert!(socket.send_message(first, &vec![0u8; 81921], MessageType::Forgettable, 0).is_err());
    assert_eq!(socket.remote(first).unwrap().next_seq_id(), 5);
}

#[test]
fn every_delivery_class_sends_alike() {
    let mut socket = Socket::new();
    let id = socket.try_connect(addr(1, 1)).unwrap();
    let a = socket.send_key_message(id, &[1], 0).unwrap();
    let b = socket.send_key_expirable_message(id, &[1], 250, 1).unwrap();
    let c = socket.send_forgettable_message(id, &[1], -1).unwrap();
    let d = socket.send_droppable_message(id, &[1], 2).unwrap();
    for (n, outgoing) in [a, b, c, d].iter().enumerate() {
        assert_eq!(outgoing.to, addr(1, 1));
        assert_eq!(outgoing.datagrams.len(), 1);
        assert_eq!(&outgoing.datagrams[0].as_bytes()[4..8], &(n as u32).to_be_bytes());
        assert_eq!(outgoing.datagrams[0].as_bytes()[10], 1);
    }
    assert!(matches!(socket.send_key_message(9, &[1], 0), Err(SocketError::InvalidRemoteId(9))));
    assert!(matches!(
        socket.send_droppable_message(id, &vec![0u8; 90000], 0),
        Err(SocketError::TooLarge)
    ));
}

#[test]
fn single_fragment_echo_between_two_sockets() {
    let a_addr = addr(1, 5212);
    let b_addr = addr(1, 5213);
    let mut a = Socket::new();
    let mut b = Socket::new();
    let b_at_a = a.try_connect(b_addr).unwrap();
    let a_at_b = b.try_connect(a_addr).unwrap();

    let outgoing = a.send_forgettable_message(b_at_a, &[5], 0).unwrap();
    assert_eq!(outgoing.to, b_addr);
    let events = b.prepare_iteration(inbound(outgoing, a_addr));
    assert!(events.is_empty());
    let messages = b.receive_all_messages_from(a_at_b).unwrap();
    assert_eq!(payloads(&messages), vec![vec![5u8]]);
}

#[test]
fn large_message_crosses_in_any_order() {
    let a_addr = addr(1, 1);
    let mut a = Socket::new();
    let mut b = Socket::new();
    let b_at_a = a.try_connect(addr(2, 2)).unwrap();
    let a_at_b = b.try_connect(a_addr).unwrap();
    let message: Vec<u8> = (0..10_000u32).map(|i| (i % 256) as u8).collect();
    let outgoing = a.send_message(b_at_a, &message, MessageType::KeyMessage, 0).unwrap();
    assert_eq!(outgoing.datagrams.len(), 8);
    let mut datagrams = inbound(outgoing, a_addr);
    datagrams.make_contiguous().reverse();
    datagrams.swap(1, 5);
    b.prepare_iteration(datagrams);
    let messages = b.receive_all_messages_from(a_at_b).unwrap();
    assert_eq!(payloads(&messages), vec![message]);
}

#[test]
fn second_drain_without_new_datagrams_is_empty() {
    let a_addr = addr(1, 1);
    let mut a = Socket::new();
    let mut b = Socket::new();
    let b_at_a = a.try_connect(addr(2, 2)).unwrap();
    let a_at_b = b.try_connect(a_addr).unwrap();
    let mut datagrams = VecDeque::new();
    for payload in [[1u8], [2u8], [3u8]].iter() {
        datagrams.extend(inbound(
            a.send_message(b_at_a, payload, MessageType::Forgettable, 0).unwrap(),
            a_addr,
        ));
    }
    b.prepare_iteration(datagrams);
    let first = b.receive_all_messages_from(a_at_b).unwrap();
    assert_eq!(payloads(&first), vec![vec![1u8], vec![2u8], vec![3u8]]);
    let second = b.receive_all_messages_from(a_at_b).unwrap();
    assert!(second.is_empty());
    let third = b.receive_all_messages(VecDeque::new()).1;
    assert_eq!(third.len(), 1);
    assert!(third[0].1.is_empty());
}

#[test]
fn peers_with_equal_sequence_ids_do_not_mix() {
    let a_addr = addr(1, 1);
    let b_addr = addr(2, 2);
    let mut a = Socket::new();
    let mut b = Socket::new();
    let mut c = Socket::new();
    let c_at_a = a.try_connect(addr(3, 3)).unwrap();
    let c_at_b = b.try_connect(addr(3, 3)).unwrap();
    let a_at_c = c.try_connect(a_addr).unwrap();
    let b_at_c = c.try_connect(b_addr).unwrap();

    let from_a: Vec<u8> = vec![0xaa; 2000];
    let from_b: Vec<u8> = vec![0xbb; 2000];
    let mut a_datagrams = inbound(a.send_message(c_at_a, &from_a, MessageType::Forgettable, 0).unwrap(), a_addr);
    let mut b_datagrams = inbound(b.send_message(c_at_b, &from_b, MessageType::Forgettable, 0).unwrap(), b_addr);
    // both messages carry sequence id 0; their fragments arrive interleaved
    let mut mixed = VecDeque::new();
    mixed.push_back(a_datagrams.pop_front().unwrap());
    mixed.push_back(b_datagrams.pop_front().unwrap());
    mixed.push_back(b_datagrams.pop_front().unwrap());
    c.prepare_iteration(mixed);
    assert!(c.receive_all_messages_from(a_at_c).unwrap().is_empty());
    assert_eq!(payloads(&c.receive_all_messages_from(b_at_c).unwrap()), vec![from_b]);
    c.prepare_iteration(a_datagrams);
    assert_eq!(payloads(&c.receive_all_messages_from(a_at_c).unwrap()), vec![from_a]);
    assert!(c.receive_all_messages_from(b_at_c).unwrap().is_empty());
}

#[test]
fn datagram_from_an_unknown_address_makes_a_peer() {
    let stranger = addr(7, 7000);
    let mut a = Socket::new();
    let mut b = Socket::new();
    let b_at_a = a.try_connect(addr(2, 2)).unwrap();
    b.try_connect(addr(9, 9)).unwrap();
    let first = inbound(a.send_message(b_at_a, &[1], MessageType::Forgettable, 0).unwrap(), stranger);
    let events = b.prepare_iteration(first);
    assert_eq!(events, vec![InEvent::NewConnectionFrom(stranger, 1, true)]);
    let remote = b.remote(1).unwrap();
    assert_eq!(remote.remote_socket_addr(), stranger);
    assert_eq!(remote.status(), RemoteStatus::AckConnecting(0));
    // the datagram that introduced the peer is its request, not a message
    assert!(b.receive_all_messages_from(1).unwrap().is_empty());
    // from now on the peer is known
    let second = inbound(a.send_message(b_at_a, &[2], MessageType::Forgettable, 0).unwrap(), stranger);
    assert!(b.prepare_iteration(second).is_empty());
    assert_eq!(payloads(&b.receive_all_messages_from(1).unwrap()), vec![vec![2u8]]);
    assert_eq!(b.try_connect(stranger), Some(1));
}

#[test]
fn malformed_datagrams_are_dropped() {
    let known = addr(1, 1);
    let mut socket = Socket::new();
    let id = socket.try_connect(known).unwrap();
    let mut datagrams = VecDeque::new();
    datagrams.push_back(raw(&[0u8; 20], known));
    datagrams.push_back(raw(&[1, 2, 3], known));
    datagrams.push_back(raw(&[0u8; 20], addr(5, 5)));
    datagrams.push_back(raw(&[], addr(6, 6)));
    let events = socket.prepare_iteration(datagrams);
    assert!(events.is_empty());
    assert!(socket.remote(1).is_none());
    assert!(socket.remote_of(&addr(5, 5)).is_none());
    assert!(socket.receive_all_messages_from(id).unwrap().is_empty());
}

#[test]
fn receive_all_messages_lists_every_peer_by_id() {
    let mut sender = Socket::new();
    let to_receiver = sender.try_connect(addr(9, 9)).unwrap();
    let mut receiver = Socket::new();
    let first = receiver.try_connect(addr(1, 1)).unwrap();
    let second = receiver.try_connect(addr(2, 2)).unwrap();
    let third = receiver.try_connect(addr(3, 3)).unwrap();
    let mut datagrams = VecDeque::new();
    datagrams.extend(inbound(sender.send_message(to_receiver, &[30], MessageType::Forgettable, 0).unwrap(), addr(3, 3)));
    datagrams.extend(inbound(sender.send_message(to_receiver, &[10], MessageType::Forgettable, 0).unwrap(), addr(1, 1)));
    datagrams.extend(inbound(sender.send_message(to_receiver, &[31], MessageType::Forgettable, 0).unwrap(), addr(3, 3)));
    let (events, received) = receiver.receive_all_messages(datagrams);
    assert!(events.is_empty());
    assert_eq!(received.len(), 3);
    assert_eq!(received[0].0, first);
    assert_eq!(payloads(&received[0].1), vec![vec![10u8]]);
    assert_eq!(received[1].0, second);
    assert!(received[1].1.is_empty());
    assert_eq!(received[2].0, third);
    assert_eq!(payloads(&received[2].1), vec![vec![30u8], vec![31u8]]);
    for id in [first, second, third].iter() {
        assert!(receiver.receive_all_messages_from(*id).unwrap().is_empty());
    }
}

#[test]
fn pending_connection_is_given_up_after_the_limit() {
    assert_eq!(RemoteStatus::default(), RemoteStatus::NotStarted);
    assert_eq!(RemoteStatus::NotStarted.tick(), RemoteStatus::NotStarted);
    assert_eq!(RemoteStatus::Connected.tick(), RemoteStatus::Connected);
    assert_eq!(RemoteStatus::Disconnected.tick(), RemoteStatus::Disconnected);
    assert_eq!(RemoteStatus::Connecting(0).tick(), RemoteStatus::Connecting(1));
    assert_eq!(RemoteStatus::Connecting(999).tick(), RemoteStatus::Connecting(1000));
    assert_eq!(RemoteStatus::Connecting(1000).tick(), RemoteStatus::Disconnected);
    assert_eq!(RemoteStatus::Connecting(u32::MAX).tick(), RemoteStatus::Disconnected);
    assert_eq!(RemoteStatus::AckConnecting(41).tick(), RemoteStatus::AckConnecting(42));
    assert_eq!(RemoteStatus::AckConnecting(1000).tick(), RemoteStatus::Disconnected);
    let mut status = RemoteStatus::AckConnecting(0);
    let mut polls = 0;
    while status != RemoteStatus::Disconnected {
        status = status.tick();
        polls += 1;
    }
    assert_eq!(polls, 1001);
}

#[test]
fn endpoint_error_becomes_a_socket_error() {
    let error = std::io::Error::new(std::io::ErrorKind::ConnectionReset, "reset");
    match SocketError::from(error) {
        SocketError::IoError(inner) => assert_eq!(inner.kind(), std::io::ErrorKind::ConnectionReset),
        other => panic!("unexpected {:?}", other),
    }
}
