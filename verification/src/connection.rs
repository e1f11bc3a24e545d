use vstd::prelude::*;
use std::collections::VecDeque;
use crate::fragment_combiner::messages_view;
use crate::misc::AsBytes;
use crate::socket::{send_outcome, inbound_view, Inbound, MessageType, Outgoing, PeerAddr};
use crate::socket::{RemoteID, Socket, SocketError};

verus! {

/// A message that arrived, with the peer that sent it.
#[derive(Debug)]
pub struct InData(pub RemoteID, pub Box<[u8]>);

/// A message to send, with the peer to send it to.
#[derive(Debug)]
pub struct OutData<B> {
    pub remote_id: RemoteID,
    pub data: B,
    pub priority: i8,
    pub message_type: MessageType,
}

/// What a connection reports to its owner.
#[derive(Debug, Clone, Copy, PartialEq, Eq, Structural)]
pub enum InEvent {
    /// A peer is known from now on. The flag tells who began: true if the
    /// peer did, false if this side asked for the connection.
    NewConnectionFrom(PeerAddr, RemoteID, bool),
    /// The peer is gone.
    Disconnected(RemoteID),
}

/// What the owner of a connection asks of it.
#[derive(Debug, Clone, Copy, PartialEq, Eq, Structural)]
pub enum OutEvent {
    NewConnection(PeerAddr),
    Disconnect(RemoteID),
}

/// What a look at a queue gave, without waiting for it.
#[derive(Debug)]
pub enum Polled<T> {
    /// Nothing is queued.
    Empty,
    /// Nothing is queued and nothing will be: the other end is gone.
    Disconnected,
    Item(T),
}

/// How a worker goes on after a look at one of its queues.
#[derive(Debug)]
pub enum Step<A> {
    /// The queue is done for this round.
    Stop,
    /// The queue is done for good: the worker is to shut down.
    Shutdown,
    /// The item was handled, with this result; the queue may hold more.
    Continue(A),
}

/// What the owner is told after a request to connect to `addr`: the peer's
/// id, or nothing if the socket gave none.
pub open spec fn connect_report(id: Option<RemoteID>, addr: PeerAddr) -> Option<InEvent> {
    match id {
        Some(id) => Some(InEvent::NewConnectionFrom(addr, id, false)),
        None => None,
    }
}

/// One step of a worker through the requests of its owner.
///
/// A request to connect registers the peer and is answered with the
/// peer's id. Disconnecting is not part of the protocol yet, so such a
/// request must not be handed in.
pub fn process_outgoing_event(socket: &mut Socket, polled: Polled<OutEvent>) -> (step: Step<
    Option<InEvent>,
>)
    requires
        old(socket).wf(),
        !(polled matches Polled::Item(OutEvent::Disconnect(_))),
    ensures
        final(socket).wf(),
        polled is Empty ==> step is Stop && final(socket)@ == old(socket)@,
        polled is Disconnected ==> step is Shutdown && final(socket)@ == old(socket)@,
        polled matches Polled::Item(OutEvent::NewConnection(addr)) ==> final(socket)@ == old(
            socket,
        )@.connected(addr) && step == Step::Continue(
            connect_report(old(socket)@.connect_result(addr), addr),
        ),
{
    match polled {
        Polled::Empty => Step::Stop,
        Polled::Disconnected => Step::Shutdown,
        Polled::Item(OutEvent::NewConnection(socket_addr)) => {
            match socket.try_connect(socket_addr) {
                Some(remote_id) => Step::Continue(
                    Some(InEvent::NewConnectionFrom(socket_addr, remote_id, false)),
                ),
                None => Step::Continue(None),
            }
        },
        Polled::Item(OutEvent::Disconnect(_)) => Step::Stop,
    }
}

/// One step of a worker through the messages that its owner wants sent.
/// The result of a send is what is to be transmitted, or why nothing is.
pub fn send_outgoing<B: AsBytes>(socket: &mut Socket, polled: Polled<OutData<B>>) -> (step: Step<
    Result<Outgoing, SocketError>,
>)
    requires
        old(socket).wf(),
        polled matches Polled::Item(out) ==> out.data.bytes().len() > 0,
    ensures
        final(socket).wf(),
        polled is Empty ==> step is Stop && final(socket)@ == old(socket)@,
        polled is Disconnected ==> step is Shutdown && final(socket)@ == old(socket)@,
        polled matches Polled::Item(out) ==> (step matches Step::Continue(r) && send_outcome(
            old(socket)@,
            final(socket)@,
            out.remote_id,
            out.data.bytes(),
            r,
        )),
{
    match polled {
        Polled::Empty => Step::Stop,
        Polled::Disconnected => Step::Shutdown,
        Polled::Item(OutData { remote_id, data, priority, message_type }) => {
            Step::Continue(socket.send_message(remote_id, data.as_bytes(), message_type, priority))
        },
    }
}

/// The messages of one peer, each with the peer's id.
pub open spec fn tagged(id: RemoteID, messages: Seq<Seq<u8>>) -> Seq<(RemoteID, Seq<u8>)> {
    messages.map_values(|m: Seq<u8>| (id, m))
}

/// The ready messages in the order of their delivery: peer after peer, and
/// for each peer oldest first.
pub open spec fn deliveries(ready: Seq<(RemoteID, Seq<Seq<u8>>)>) -> Seq<(RemoteID, Seq<u8>)>
    decreases ready.len(),
{
    if ready.len() == 0 {
        Seq::empty()
    } else {
        deliveries(ready.drop_last()) + tagged(ready.last().0, ready.last().1)
    }
}

/// The deliveries as peer and bytes.
pub open spec fn in_data_view(data: Seq<InData>) -> Seq<(RemoteID, Seq<u8>)> {
    data.map_values(|d: InData| (d.0, d.1@))
}

/// The receiving part of one round of a worker: takes in the datagrams
/// that the endpoint received, and gives what is to be reported and what
/// is to be delivered to the owner, in that order.
pub fn receive_incoming(socket: &mut Socket, datagrams: VecDeque<Inbound>) -> (r: (
    Vec<InEvent>,
    Vec<InData>,
))
    requires
        old(socket).wf(),
    ensures
        final(socket).wf(),
        final(socket)@ == old(socket)@.prepared(inbound_view(datagrams@)).drained_all(),
        r.0@ == old(socket)@.prepared_events(inbound_view(datagrams@)),
        in_data_view(r.1@) == deliveries(
            old(socket)@.prepared(inbound_view(datagrams@)).ready(),
        ),
{
    let ghost prepared = old(socket)@.prepared(inbound_view(datagrams@));
    let ghost ready = prepared.ready();
    let (events, received) = socket.receive_all_messages(datagrams);
    let mut data: Vec<InData> = Vec::new();
    proof {
        assert(ready.take(0) =~= Seq::empty());
    }
    for entry in iter: received.into_iter()
        invariant
            iter.seq() == received@,
            received@.len() == ready.len(),
            forall|i: int|
                0 <= i < received@.len() ==> (#[trigger] received@[i]).0 == ready[i].0
                    && messages_view(received@[i].1@) == ready[i].1,
            in_data_view(data@) == deliveries(ready.take(iter.index() as int)),
    {
        let ghost k = iter.index() as int;
        let (remote_id, remote_messages) = entry;
        let mut remote_messages = remote_messages;
        let ghost all = ready[k].1;
        let ghost mut taken: int = 0;
        let ghost delivered = deliveries(ready.take(k));
        proof {
            assert(ready.take(k + 1).drop_last() =~= ready.take(k));
            assert(ready.take(k + 1).last() == ready[k]);
            assert(all.take(0) =~= Seq::empty());
            assert(in_data_view(data@) =~= delivered + tagged(remote_id, all.take(0)));
            assert(all.skip(0) =~= all);
        }
        loop
            invariant
                0 <= taken <= all.len(),
                messages_view(remote_messages@) == all.skip(taken),
                in_data_view(data@) == delivered + tagged(remote_id, all.take(taken)),
            ensures
                taken == all.len(),
            decreases remote_messages@.len(),
        {
            let ghost left = remote_messages@;
            let ghost before = data@;
            match remote_messages.pop_front() {
                None => {
                    proof {
                        assert(messages_view(left).len() == left.len());
                        assert(all.skip(taken).len() == all.len() - taken);
                    }
                    break ;
                },
                Some(message) => {
                    proof {
                        assert(messages_view(left).len() == left.len());
                        assert(all.skip(taken).len() == all.len() - taken);
                        assert(messages_view(left)[0] == all.skip(taken)[0]);
                        assert(message@ == all[taken]);
                        assert forall|i: int| 0 <= i < remote_messages@.len() implies messages_view(
                            remote_messages@,
                        )[i] == all.skip(taken + 1)[i] by {
                            assert(remote_messages@[i] == left[i + 1]);
                            assert(messages_view(left)[i + 1] == all.skip(taken)[i + 1]);
                        }
                        assert(messages_view(remote_messages@) =~= all.skip(taken + 1));
                    }
                    data.push(InData(remote_id, message));
                    proof {
                        assert(data@ == before.push(InData(remote_id, message)));
                        assert(in_data_view(data@) =~= in_data_view(before).push(
                            (remote_id, message@),
                        ));
                        assert(all.take(taken + 1) =~= all.take(taken).push(all[taken]));
                        assert(tagged(remote_id, all.take(taken + 1)) =~= tagged(
                            remote_id,
                            all.take(taken),
                        ).push((remote_id, all[taken])));
                        assert(in_data_view(data@) =~= delivered + tagged(
                            remote_id,
                            all.take(taken + 1),
                        ));
                        taken = taken + 1;
                    }
                },
            }
        }
        proof {
            assert(all.take(taken) =~= all);
        }
    }
    proof {
        assert(ready.take(ready.len() as int) =~= ready);
    }
    (events, data)
}

} // verus!
