use std::collections::VecDeque;

use kestrel::connection::{process_outgoing_event, receive_incoming, send_outgoing};
use kestrel::{Inbound, InData, InEvent, MessageType, OutData, OutEvent, PeerAddr, Polled};
use kestrel::{Socket, SocketError, Step};

fn addr(port: u16) -> PeerAddr {
    PeerAddr::V4 { ip: 0x7f00_0001, port }
}

fn out_data(remote_id: u32, data: Vec<u8>) -> Polled<OutData<Vec<u8>>> {
    Polled::Item(OutData { remote_id, data, priority: 0, message_type: MessageType::Forgettable })
}

#[test]
fn empty_and_closed_queues_end_the_round() {
    let mut socket = Socket::new();
    assert!(matches!(process_outgoing_event(&mut socket, Polled::Empty), Step::Stop));
    assert!(matches!(process_outgoing_event(&mut socket, Polled::Disconnected), Step::Shutdown));
    let empty: Polled<OutData<Vec<u8>>> = Polled::Empty;
    assert!(matches!(send_outgoing(&mut socket, empty), Step::Stop));
    let closed: Polled<OutData<Vec<u8>>> = Polled::Disconnected;
    assert!(matches!(send_outgoing(&mut socket, closed), Step::Shutdown));
    assert!(socket.remote(0).is_none());
}

#[test]
fn request_to_connect_is_answered_with_the_peer() {
    let mut socket = Socket::new();
    let step = process_outgoing_event(&mut socket, Polled::Item(OutEvent::NewConnection(addr(5213))));
    match step {
        Step::Continue(Some(event)) => {
            assert_eq!(event, InEvent::NewConnectionFrom(addr(5213), 0, false))
        },
        other => panic!("unexpected {:?}", other),
    }
    let step = process_outgoing_event(&mut socket, Polled::Item(OutEvent::NewConnection(addr(5214))));
    assert!(matches!(
        step,
        Step::Continue(Some(InEvent::NewConnectionFrom(_, 1, false)))
    ));
    assert_eq!(socket.remote_of(&addr(5214)), Some(1));
}

#[test]
fn outgoing_data_becomes_datagrams() {
    let mut socket = Socket::new();
    let id = socket.try_connect(addr(5213)).unwrap();
    match send_outgoing(&mut socket, out_data(id, vec![5])) {
        Step::Continue(Ok(outgoing)) => {
            assert_eq!(outgoing.to, addr(5213));
            assert_eq!(outgoing.datagrams.len(), 1);
            assert_eq!(outgoing.datagrams[0].as_bytes(), &[237u8, 6, 43, 241, 0, 0, 0, 0, 0, 0, 5]);
        },
        other => panic!("unexpected {:?}", other),
    }
    assert!(matches!(
        send_outgoing(&mut socket, out_data(4, vec![5])),
        Step::Continue(Err(SocketError::InvalidRemoteId(4)))
    ));
    assert!(matches!(
        send_outgoing(&mut socket, out_data(id, vec![0; 81921])),
        Step::Continue(Err(SocketError::TooLarge))
    ));
    assert_eq!(socket.remote(id).unwrap().next_seq_id(), 1);
}

#[test]
fn two_workers_connect_and_exchange_a_message() {
    let first_addr = addr(5212);
    let second_addr = addr(5213);
    let mut first = Socket::new();
    let mut second = Socket::new();

    let first_peer = match process_outgoing_event(
        &mut first,
        Polled::Item(OutEvent::NewConnection(second_addr)),
    ) {
        Step::Continue(Some(InEvent::NewConnectionFrom(_, id, false))) => id,
        other => panic!("unexpected {:?}", other),
    };
    let second_peer = match process_outgoing_event(
        &mut second,
        Polled::Item(OutEvent::NewConnection(first_addr)),
    ) {
        Step::Continue(Some(InEvent::NewConnectionFrom(_, id, false))) => id,
        other => panic!("unexpected {:?}", other),
    };

    let outgoing = match send_outgoing(&mut first, out_data(first_peer, vec![5])) {
        Step::Continue(Ok(outgoing)) => outgoing,
        other => panic!("unexpected {:?}", other),
    };
    assert_eq!(outgoing.to, second_addr);
    let datagrams: VecDeque<Inbound> =
        outgoing.datagrams.into_iter().map(|d| (d, first_addr)).collect();
    let (events, data) = receive_incoming(&mut second, datagrams);
    assert!(events.is_empty());
    assert_eq!(data.len(), 1);
    let InData(from, bytes) = &data[0];
    assert_eq!(*from, second_peer);
    assert_eq!(bytes.as_ref(), &[5u8]);
    let (events, data) = receive_incoming(&mut second, VecDeque::new());
    assert!(events.is_empty());
    assert!(data.is_empty());
}

#[test]
fn deliveries_go_peer_by_peer_and_oldest_first() {
    let mut sender = Socket::new();
    let to = sender.try_connect(addr(1)).unwrap();
    let mut receiver = Socket::new();
    let first = receiver.try_connect(addr(10)).unwrap();
    let second = receiver.try_connect(addr(20)).unwrap();
    let mut datagrams: VecDeque<Inbound> = VecDeque::new();
    for (payload, from) in [(21u8, addr(20)), (11, addr(10)), (22, addr(20)), (99, addr(30)), (12, addr(10))].iter() {
        let outgoing = sender.send_message(to, &[*payload], MessageType::Forgettable, 0).unwrap();
        datagrams.extend(outgoing.datagrams.into_iter().map(|d| (d, *from)));
    }
    let (events, data) = receive_incoming(&mut receiver, datagrams);
    assert_eq!(events, vec![InEvent::NewConnectionFrom(addr(30), 2, true)]);
    let delivered: Vec<(u32, Vec<u8>)> = data.iter().map(|d| (d.0, d.1.to_vec())).collect();
    assert_eq!(
        delivered,
        vec![(first, vec![11u8]), (first, vec![12u8]), (second, vec![21u8]), (second, vec![22u8])]
    );
}
