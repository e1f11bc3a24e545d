use vstd::prelude::*;
use fnv::FnvHashMap;
use std::collections::VecDeque;
use crate::connection::InEvent;
use crate::consts::CONNECT_ABANDON_TOTAL_ITERATIONS;
use crate::fragment::{build_fragments_from_data, fragment_count, split, FragmentView};
use crate::fragment_combiner::{arrivals, completes_at_end, lemma_reassembly_with_duplicates};
use crate::fragment_combiner::{messages_view, CombinerView, FragmentCombiner};
use crate::misc::StrippedBoxedSlice;
use crate::trusted::{map_get, map_insert, map_remove};
use crate::udp_message::{lemma_decode_encode, spec_decode, spec_encode, UdpMessage};
use crate::consts::{MAX_FRAGMENTS_IN_MESSAGE, MAX_FRAGMENT_MESSAGE_SIZE};

verus! {

/// The name a socket gives to a peer. Ids are handed out in rising order
/// and mean nothing to another socket.
pub type RemoteID = u32;

/// The address of a peer's endpoint, as plain numbers: two addresses are
/// the same exactly when all of their numbers are.
#[derive(Debug, Clone, Copy, PartialEq, Eq, Structural, Hash)]
pub enum PeerAddr {
    V4 { ip: u32, port: u16 },
    V6 { ip6: u128, port: u16, flowinfo: u32, scope_id: u32 },
}

/// Where the connection to a peer stands.
///
/// The number in `Connecting` and `AckConnecting` counts the polls that
/// went by without an answer.
#[derive(Debug, Clone, Copy, PartialEq, Eq, Structural)]
pub enum RemoteStatus {
    /// No connection attempt has been made yet.
    NotStarted,
    /// This side asked for the connection and waits for the answer.
    Connecting(u32),
    /// The peer asked for the connection and waits for the acknowledgement.
    AckConnecting(u32),
    Connected,
    /// The peer is gone and may be forgotten.
    Disconnected,
}

impl RemoteStatus {
    /// The status one poll later: a pending attempt counts the poll and is
    /// given up once it has waited longer than the limit.
    pub open spec fn spec_tick(self) -> RemoteStatus {
        match self {
            RemoteStatus::Connecting(polls) => if polls >= CONNECT_ABANDON_TOTAL_ITERATIONS {
                RemoteStatus::Disconnected
            } else {
                RemoteStatus::Connecting((polls + 1) as u32)
            },
            RemoteStatus::AckConnecting(polls) => if polls >= CONNECT_ABANDON_TOTAL_ITERATIONS {
                RemoteStatus::Disconnected
            } else {
                RemoteStatus::AckConnecting((polls + 1) as u32)
            },
            other => other,
        }
    }

    pub fn tick(self) -> (next: RemoteStatus)
        ensures
            next == self.spec_tick(),
    {
        match self {
            RemoteStatus::Connecting(polls) => if polls >= CONNECT_ABANDON_TOTAL_ITERATIONS {
                RemoteStatus::Disconnected
            } else {
                RemoteStatus::Connecting(polls + 1)
            },
            RemoteStatus::AckConnecting(polls) => if polls >= CONNECT_ABANDON_TOTAL_ITERATIONS {
                RemoteStatus::Disconnected
            } else {
                RemoteStatus::AckConnecting(polls + 1)
            },
            other => other,
        }
    }
}

impl Default for RemoteStatus {
    /// A peer starts out with no connection attempt made.
    fn default() -> (status: Self)
        ensures
            status == RemoteStatus::NotStarted,
    {
        RemoteStatus::NotStarted
    }
}

/// How hard the sender wants a message delivered.
#[derive(Debug, Copy, Clone)]
pub enum MessageType {
    /// Sent once; if it does not arrive, it is lost.
    Forgettable,
    /// Sent once, and the first to be dropped when the network looks
    /// congested.
    Droppable,
    /// Repeated until it is acknowledged or the given number of
    /// milliseconds has gone by. With zero it is sent once.
    KeyExpirableMessage(u32),
    /// Repeated until it is acknowledged.
    KeyMessage,
}

/// Why a socket did not do what was asked.
#[derive(Debug)]
pub enum SocketError {
    /// No peer has this id.
    InvalidRemoteId(RemoteID),
    /// The message needs more fragments than a message may have.
    TooLarge,
    /// The endpoint failed.
    IoError(std::io::Error),
}

impl From<std::io::Error> for SocketError {
    fn from(e: std::io::Error) -> (error: SocketError) {
        SocketError::IoError(e)
    }
}

impl vstd::std_specs::convert::FromSpecImpl<std::io::Error> for SocketError {
    open spec fn obeys_from_spec() -> bool {
        true
    }

    open spec fn from_spec(e: std::io::Error) -> SocketError {
        SocketError::IoError(e)
    }
}

/// What a socket knows of one peer.
pub struct RemoteView {
    pub id: RemoteID,
    pub addr: PeerAddr,
    pub status: RemoteStatus,
    pub next_seq_id: u32,
    pub combiner: CombinerView,
}

impl RemoteView {
    /// A peer that has just been registered.
    pub open spec fn fresh(id: RemoteID, addr: PeerAddr, status: RemoteStatus) -> RemoteView {
        RemoteView { id, addr, status, next_seq_id: 0, combiner: CombinerView::empty() }
    }

    /// The peer after a datagram of its own has come in: a datagram that
    /// decodes is filed with the combiner, any other is dropped.
    pub open spec fn received(self, datagram: Seq<u8>) -> RemoteView {
        match spec_decode(datagram) {
            Ok(fragment) => RemoteView { combiner: self.combiner.push(fragment), ..self },
            Err(_) => self,
        }
    }

    /// The peer after its ready messages have been taken.
    pub open spec fn drained(self) -> RemoteView {
        RemoteView { combiner: self.combiner.drained(), ..self }
    }

    /// The peer after a message has been sent to it. Sequence ids wrap
    /// around at the end of their range.
    pub open spec fn sent(self) -> RemoteView {
        RemoteView {
            next_seq_id: if self.next_seq_id == u32::MAX {
                0
            } else {
                (self.next_seq_id + 1) as u32
            },
            ..self
        }
    }
}

/// The record a socket keeps of one peer.
#[derive(Debug)]
pub struct Remote {
    id: RemoteID,
    remote_socket_addr: PeerAddr,
    status: RemoteStatus,
    next_seq_id: u32,
    fragment_combiner: FragmentCombiner<StrippedBoxedSlice<u8>>,
}

impl View for Remote {
    type V = RemoteView;

    closed spec fn view(&self) -> RemoteView {
        RemoteView {
            id: self.id,
            addr: self.remote_socket_addr,
            status: self.status,
            next_seq_id: self.next_seq_id,
            combiner: self.fragment_combiner@,
        }
    }
}

impl Remote {
    /// The invariant of the record: that of its combiner.
    pub open spec fn wf(&self) -> bool {
        self@.combiner.wf()
    }

    fn new(id: RemoteID, remote_socket_addr: PeerAddr, status: RemoteStatus) -> (remote: Remote)
        ensures
            remote.wf(),
            remote@ == RemoteView::fresh(id, remote_socket_addr, status),
    {
        Remote {
            id,
            remote_socket_addr,
            status,
            next_seq_id: 0,
            fragment_combiner: FragmentCombiner::new(),
        }
    }

    pub fn id(&self) -> (id: RemoteID)
        ensures
            id == self@.id,
    {
        self.id
    }

    pub fn remote_socket_addr(&self) -> (addr: PeerAddr)
        ensures
            addr == self@.addr,
    {
        self.remote_socket_addr
    }

    pub fn status(&self) -> (status: RemoteStatus)
        ensures
            status == self@.status,
    {
        self.status
    }

    /// The sequence id that the next message to this peer will carry.
    pub fn next_seq_id(&self) -> (seq_id: u32)
        ensures
            seq_id == self@.next_seq_id,
    {
        self.next_seq_id
    }

    /// Takes in a datagram that this peer sent. A datagram that does not
    /// decode is dropped: a peer must not be able to do harm with one.
    pub fn push_udp_message(&mut self, udp_message: UdpMessage<Box<[u8]>>)
        requires
            old(self).wf(),
        ensures
            final(self).wf(),
            final(self)@ == old(self)@.received(udp_message@),
    {
        match udp_message.into_fragment() {
            Ok(fragment) => {
                self.fragment_combiner.push(fragment);
            },
            Err(_) => {},
        }
    }

    /// Takes all ready messages of this peer, oldest first.
    pub fn extract_out_messages(&mut self) -> (messages: VecDeque<Box<[u8]>>)
        requires
            old(self).wf(),
        ensures
            final(self).wf(),
            messages_view(messages@) == old(self)@.combiner.out,
            final(self)@ == old(self)@.drained(),
    {
        self.fragment_combiner.out_messages()
    }
}

/// A datagram that came in, with the address that it came from.
pub type Inbound = (UdpMessage<Box<[u8]>>, PeerAddr);

/// The datagrams that came in, as bytes.
pub open spec fn inbound_view(datagrams: Seq<Inbound>) -> Seq<(Seq<u8>, PeerAddr)> {
    datagrams.map_values(|d: Inbound| (d.0@, d.1))
}

/// The datagrams that carry a message, in the order of its fragments.
pub open spec fn datagrams_of(message: Seq<u8>, seq_id: u32) -> Seq<Seq<u8>> {
    split(message, seq_id).map_values(|f: FragmentView| spec_encode(f))
}

/// The datagrams as bytes.
pub open spec fn datagrams_view(datagrams: Seq<UdpMessage<Box<[u8]>>>) -> Seq<Seq<u8>> {
    datagrams.map_values(|d: UdpMessage<Box<[u8]>>| d@)
}

/// What is to be transmitted for one message: the datagrams, in order, and
/// the address to transmit them to.
#[derive(Debug)]
pub struct Outgoing {
    pub to: PeerAddr,
    pub datagrams: Vec<UdpMessage<Box<[u8]>>>,
}

/// What sending `message` to the peer `remote_id` comes to, from the state
/// `before` to the state `after`.
///
/// Without such a peer, and with a message of more than 64 fragments, the
/// send fails and nothing changes. Otherwise the datagrams of the message
/// under the peer's next sequence id go to the peer's address, and the peer
/// moves on to its next sequence id.
pub open spec fn send_outcome(
    before: SocketView,
    after: SocketView,
    remote_id: RemoteID,
    message: Seq<u8>,
    r: Result<Outgoing, SocketError>,
) -> bool {
    if !before.remotes.contains_key(remote_id) {
        r == Err::<Outgoing, SocketError>(SocketError::InvalidRemoteId(remote_id)) && after
            == before
    } else if fragment_count(message.len()) > MAX_FRAGMENTS_IN_MESSAGE {
        r == Err::<Outgoing, SocketError>(SocketError::TooLarge) && after == before
    } else {
        &&& r matches Ok(outgoing)
        &&& outgoing.to == before.remotes[remote_id].addr
        &&& datagrams_view(outgoing.datagrams@) == datagrams_of(
            message,
            before.remotes[remote_id].next_seq_id,
        )
        &&& after == before.sent(remote_id)
    }
}

/// The state of a socket: the peers that it knows, by id.
pub struct SocketView {
    pub next_remote_id: RemoteID,
    pub remotes: Map<RemoteID, RemoteView>,
}

impl SocketView {
    /// The ids in use are those below the next id, every peer is filed
    /// under its own id, and no two peers have one address: looking a peer
    /// up by id and by address gives the same peer.
    pub open spec fn wf(self) -> bool {
        &&& forall|id: RemoteID| #[trigger]
            self.remotes.contains_key(id) <==> id < self.next_remote_id
        &&& forall|id: RemoteID| #[trigger]
            self.remotes.contains_key(id) ==> self.remotes[id].id == id
        &&& forall|a: RemoteID, b: RemoteID|
            #![trigger self.remotes[a], self.remotes[b]]
            self.remotes.contains_key(a) && self.remotes.contains_key(b) && self.remotes[a].addr
                == self.remotes[b].addr ==> a == b
    }

    /// A socket that knows no peer.
    pub open spec fn empty() -> SocketView {
        SocketView { next_remote_id: 0, remotes: Map::empty() }
    }

    /// The id of the peer at `addr`, if the socket knows one.
    pub open spec fn remote_of(self, addr: PeerAddr) -> Option<RemoteID> {
        if exists|id: RemoteID| #[trigger]
            self.remotes.contains_key(id) && self.remotes[id].addr == addr {
            Some(
                choose|id: RemoteID| #[trigger]
                    self.remotes.contains_key(id) && self.remotes[id].addr == addr,
            )
        } else {
            None
        }
    }

    /// Whether an id is left for one more peer.
    pub open spec fn has_room(self) -> bool {
        self.next_remote_id < u32::MAX
    }

    /// The socket with one more peer, under the next id.
    pub open spec fn registered(self, addr: PeerAddr, status: RemoteStatus) -> SocketView {
        SocketView {
            next_remote_id: (self.next_remote_id + 1) as u32,
            remotes: self.remotes.insert(
                self.next_remote_id,
                RemoteView::fresh(self.next_remote_id, addr, status),
            ),
        }
    }

    /// The socket after a connect to `addr`.
    pub open spec fn connected(self, addr: PeerAddr) -> SocketView {
        if self.remote_of(addr) is None && self.has_room() {
            self.registered(addr, RemoteStatus::NotStarted)
        } else {
            self
        }
    }

    /// The id that a connect to `addr` gives: that of the peer already
    /// known at `addr`, else the next id, if one is left.
    pub open spec fn connect_result(self, addr: PeerAddr) -> Option<RemoteID> {
        match self.remote_of(addr) {
            Some(id) => Some(id),
            None => if self.has_room() {
                Some(self.next_remote_id)
            } else {
                None
            },
        }
    }

    /// Whether a datagram from `from` makes `from` a new peer: it decodes,
    /// no peer is known at `from`, and an id is left.
    pub open spec fn admits(self, datagram: Seq<u8>, from: PeerAddr) -> bool {
        spec_decode(datagram) is Ok && self.remote_of(from) is None && self.has_room()
    }

    /// The socket after a datagram has come in from `from`. A known peer
    /// takes it in. From an unknown address it counts as a request to
    /// connect: the address becomes a peer that awaits its acknowledgement.
    pub open spec fn routed(self, datagram: Seq<u8>, from: PeerAddr) -> SocketView {
        match self.remote_of(from) {
            Some(id) => SocketView {
                remotes: self.remotes.insert(id, self.remotes[id].received(datagram)),
                ..self
            },
            None => if self.admits(datagram, from) {
                self.registered(from, RemoteStatus::AckConnecting(0))
            } else {
                self
            },
        }
    }

    /// What a datagram from `from` gives to report: the new peer, if it
    /// made one.
    pub open spec fn routed_event(self, datagram: Seq<u8>, from: PeerAddr) -> Option<InEvent> {
        if self.admits(datagram, from) {
            Some(InEvent::NewConnectionFrom(from, self.next_remote_id, true))
        } else {
            None
        }
    }

    /// The socket after the datagrams have come in, first to last.
    pub open spec fn prepared(self, datagrams: Seq<(Seq<u8>, PeerAddr)>) -> SocketView
        decreases datagrams.len(),
    {
        if datagrams.len() == 0 {
            self
        } else {
            self.prepared(datagrams.drop_last()).routed(datagrams.last().0, datagrams.last().1)
        }
    }

    /// What the datagrams give to report, in their order.
    pub open spec fn prepared_events(self, datagrams: Seq<(Seq<u8>, PeerAddr)>) -> Seq<InEvent>
        decreases datagrams.len(),
    {
        if datagrams.len() == 0 {
            Seq::empty()
        } else {
            let earlier = self.prepared_events(datagrams.drop_last());
            match self.prepared(datagrams.drop_last()).routed_event(
                datagrams.last().0,
                datagrams.last().1,
            ) {
                Some(event) => earlier.push(event),
                None => earlier,
            }
        }
    }

    /// The socket after the ready messages of one peer have been taken.
    pub open spec fn drained(self, id: RemoteID) -> SocketView {
        SocketView { remotes: self.remotes.insert(id, self.remotes[id].drained()), ..self }
    }

    /// The socket after the ready messages of every peer have been taken.
    pub open spec fn drained_all(self) -> SocketView {
        SocketView { remotes: self.remotes.map_values(|r: RemoteView| r.drained()), ..self }
    }

    /// The socket after a message has been sent to one peer.
    pub open spec fn sent(self, id: RemoteID) -> SocketView {
        SocketView { remotes: self.remotes.insert(id, self.remotes[id].sent()), ..self }
    }

    /// The socket after `n` messages have been sent to one peer.
    pub open spec fn sent_times(self, id: RemoteID, n: nat) -> SocketView
        decreases n,
    {
        if n == 0 {
            self
        } else {
            self.sent_times(id, (n - 1) as nat).sent(id)
        }
    }

    /// The ready messages of every peer, by rising id.
    pub open spec fn ready(self) -> Seq<(RemoteID, Seq<Seq<u8>>)> {
        Seq::new(
            self.next_remote_id as nat,
            |i: int| (i as RemoteID, self.remotes[i as RemoteID].combiner.out),
        )
    }
}

/// A datagram that comes in leaves the two ways to a peer in agreement.
pub proof fn lemma_routed_wf(s: SocketView, datagram: Seq<u8>, from: PeerAddr)
    requires
        s.wf(),
    ensures
        s.routed(datagram, from).wf(),
{
    let after = s.routed(datagram, from);
    match s.remote_of(from) {
        Some(id) => {
            assert(s.remotes.contains_key(id));
            assert(s.remotes[id].received(datagram).addr == s.remotes[id].addr);
            assert(s.remotes[id].received(datagram).id == s.remotes[id].id);
            assert forall|a: RemoteID, b: RemoteID|
                #![trigger after.remotes[a], after.remotes[b]]
                after.remotes.contains_key(a) && after.remotes.contains_key(b)
                    && after.remotes[a].addr == after.remotes[b].addr implies a == b by {
                assert(s.remotes[a].addr == s.remotes[b].addr);
            }
        },
        None => {
            if s.admits(datagram, from) {
                assert forall|a: RemoteID, b: RemoteID|
                    #![trigger after.remotes[a], after.remotes[b]]
                    after.remotes.contains_key(a) && after.remotes.contains_key(b)
                        && after.remotes[a].addr == after.remotes[b].addr implies a == b by {
                    if a != b {
                        if a == s.next_remote_id {
                            assert(s.remotes.contains_key(b) && s.remotes[b].addr == from);
                        } else if b == s.next_remote_id {
                            assert(s.remotes.contains_key(a) && s.remotes[a].addr == from);
                        } else {
                            assert(s.remotes[a].addr == s.remotes[b].addr);
                        }
                    }
                }
            }
        },
    }
}

/// Datagrams that come in leave the two ways to a peer in agreement.
pub proof fn lemma_prepared_wf(s: SocketView, datagrams: Seq<(Seq<u8>, PeerAddr)>)
    requires
        s.wf(),
    ensures
        s.prepared(datagrams).wf(),
    decreases datagrams.len(),
{
    if datagrams.len() > 0 {
        lemma_prepared_wf(s, datagrams.drop_last());
        lemma_routed_wf(s.prepared(datagrams.drop_last()), datagrams.last().0, datagrams.last().1);
    }
}

/// Sequence ids count the messages sent. After `n` messages have been
/// sent to a peer, its next sequence id has advanced by `n`, around the end
/// of the range of sequence ids if it is reached; nothing else of the peer,
/// and no other peer, has changed.
pub proof fn lemma_sends_advance_seq_id(s: SocketView, id: RemoteID, n: nat)
    requires
        s.remotes.contains_key(id),
    ensures
        s.sent_times(id, n).remotes.contains_key(id),
        s.sent_times(id, n).remotes[id].next_seq_id == (s.remotes[id].next_seq_id + n)
            % 0x1_0000_0000,
        s.remotes[id].next_seq_id + n <= u32::MAX ==> s.sent_times(id, n).remotes[id].next_seq_id
            == s.remotes[id].next_seq_id + n,
        s.sent_times(id, n) == (SocketView {
            remotes: s.remotes.insert(
                id,
                RemoteView {
                    next_seq_id: s.sent_times(id, n).remotes[id].next_seq_id,
                    ..s.remotes[id]
                },
            ),
            ..s
        }),
    decreases n,
{
    if n == 0 {
        assert(s.remotes.insert(id, s.remotes[id]) =~= s.remotes);
    } else {
        let earlier = s.sent_times(id, (n - 1) as nat);
        lemma_sends_advance_seq_id(s, id, (n - 1) as nat);
        let later = earlier.sent(id);
        assert(later.remotes =~= s.remotes.insert(
            id,
            RemoteView { next_seq_id: later.remotes[id].next_seq_id, ..s.remotes[id] },
        ));
    }
}

/// Draining twice gives nothing the second time. Once the ready messages
/// of a peer have been taken, none is ready, and taking them again changes
/// nothing.
pub proof fn lemma_second_drain_is_empty(s: SocketView, id: RemoteID)
    requires
        s.remotes.contains_key(id),
    ensures
        s.drained(id).remotes.contains_key(id),
        s.drained(id).remotes[id].combiner.out == Seq::<Seq<u8>>::empty(),
        s.drained(id).drained(id) == s.drained(id),
{
    assert(s.drained(id).drained(id).remotes =~= s.drained(id).remotes);
}

/// Peers do not mix. Datagrams of which none comes from the address of a
/// peer leave that peer as it was, whatever sequence ids they carry: none
/// of them shows in the peer's fragments or in its ready messages.
pub proof fn lemma_routing_isolates_remotes(
    s: SocketView,
    datagrams: Seq<(Seq<u8>, PeerAddr)>,
    other: RemoteID,
)
    requires
        s.wf(),
        s.remotes.contains_key(other),
        forall|i: int|
            0 <= i < datagrams.len() ==> (#[trigger] datagrams[i]).1 != s.remotes[other].addr,
    ensures
        s.prepared(datagrams).remotes.contains_key(other),
        s.prepared(datagrams).remotes[other] == s.remotes[other],
    decreases datagrams.len(),
{
    if datagrams.len() > 0 {
        let earlier = s.prepared(datagrams.drop_last());
        let (datagram, from) = datagrams.last();
        assert forall|i: int| 0 <= i < datagrams.drop_last().len() implies (
        #[trigger] datagrams.drop_last()[i]).1 != s.remotes[other].addr by {
            assert(datagrams.drop_last()[i] == datagrams[i]);
        }
        lemma_routing_isolates_remotes(s, datagrams.drop_last(), other);
        lemma_prepared_wf(s, datagrams.drop_last());
        assert(datagrams[datagrams.len() - 1].1 != s.remotes[other].addr);
        match earlier.remote_of(from) {
            Some(id) => {
                assert(earlier.remotes.contains_key(id) && earlier.remotes[id].addr == from);
                assert(id != other);
            },
            None => {},
        }
    }
}

/// The fragments that datagrams carry, for datagrams that all decode.
pub open spec fn decoded(datagrams: Seq<Seq<u8>>) -> Seq<FragmentView> {
    Seq::new(datagrams.len(), |j: int| spec_decode(datagrams[j])->Ok_0)
}

/// The datagrams, each as coming from `from`.
pub open spec fn coming_from(datagrams: Seq<Seq<u8>>, from: PeerAddr) -> Seq<(Seq<u8>, PeerAddr)> {
    datagrams.map_values(|d: Seq<u8>| (d, from))
}

/// Datagrams of one peer reach the combiner of that peer. When datagrams
/// that all decode come in from the address of a peer, the peer's combiner
/// is pushed the fragments that they carry, in their order, and nothing
/// else changes.
pub proof fn lemma_prepared_pushes(s: SocketView, id: RemoteID, datagrams: Seq<Seq<u8>>)
    requires
        s.wf(),
        s.remotes.contains_key(id),
        forall|j: int| 0 <= j < datagrams.len() ==> spec_decode(#[trigger] datagrams[j]) is Ok,
    ensures
        s.prepared(coming_from(datagrams, s.remotes[id].addr)) == (SocketView {
            remotes: s.remotes.insert(
                id,
                RemoteView {
                    combiner: s.remotes[id].combiner.pushes(decoded(datagrams)),
                    ..s.remotes[id]
                },
            ),
            ..s
        }),
    decreases datagrams.len(),
{
    let from = s.remotes[id].addr;
    let tagged = coming_from(datagrams, from);
    if datagrams.len() == 0 {
        assert(decoded(datagrams) =~= Seq::<FragmentView>::empty());
        assert(s.remotes.insert(id, s.remotes[id]) =~= s.remotes);
    } else {
        let shorter = datagrams.drop_last();
        assert forall|j: int| 0 <= j < shorter.len() implies spec_decode(
            #[trigger] shorter[j],
        ) is Ok by {
            assert(shorter[j] == datagrams[j]);
        }
        lemma_prepared_pushes(s, id, shorter);
        assert(tagged.drop_last() =~= coming_from(shorter, from));
        assert(tagged.last() == (datagrams.last(), from));
        let earlier = s.prepared(coming_from(shorter, from));
        lemma_prepared_wf(s, coming_from(shorter, from));
        assert(earlier.remotes.contains_key(id) && earlier.remotes[id].addr == from);
        assert(earlier.remote_of(from) == Some(id)) by {
            let chosen = earlier.remote_of(from)->0;
            assert(earlier.remotes.contains_key(chosen) && earlier.remotes[chosen].addr == from);
            assert(earlier.remotes[chosen].addr == earlier.remotes[id].addr);
        }
        assert(spec_decode(datagrams[datagrams.len() - 1]) is Ok);
        assert(decoded(datagrams).drop_last() =~= decoded(shorter));
        assert(decoded(datagrams).last() == spec_decode(datagrams.last())->Ok_0);
        let later = earlier.routed(datagrams.last(), from);
        assert(later.remotes =~= s.remotes.insert(
            id,
            RemoteView {
                combiner: s.remotes[id].combiner.pushes(decoded(datagrams)),
                ..s.remotes[id]
            },
        ));
    }
}

/// What is sent arrives. When the datagrams of a message come in from the
/// address of a peer, each at least once, in whatever order that ends on a
/// datagram that has not come in before, the message is the peer's newest
/// ready message and nothing else has changed. The peer must not hold
/// fragments under the sequence id of the message already.
pub proof fn lemma_message_sent_is_message_received(
    s: SocketView,
    id: RemoteID,
    message: Seq<u8>,
    seq_id: u32,
    order: Seq<int>,
)
    requires
        s.wf(),
        s.remotes.contains_key(id),
        !s.remotes[id].combiner.pending.contains_key(seq_id),
        0 < message.len() <= MAX_FRAGMENTS_IN_MESSAGE * MAX_FRAGMENT_MESSAGE_SIZE,
        completes_at_end(order, fragment_count(message.len())),
    ensures
        s.prepared(
            coming_from(
                Seq::new(order.len(), |j: int| datagrams_of(message, seq_id)[order[j]]),
                s.remotes[id].addr,
            ),
        ) == (SocketView {
            remotes: s.remotes.insert(
                id,
                RemoteView {
                    combiner: CombinerView {
                        pending: s.remotes[id].combiner.pending,
                        out: s.remotes[id].combiner.out.push(message),
                    },
                    ..s.remotes[id]
                },
            ),
            ..s
        }),
{
    let fragments = split(message, seq_id);
    let datagrams = Seq::new(order.len(), |j: int| datagrams_of(message, seq_id)[order[j]]);
    assert(MAX_FRAGMENT_MESSAGE_SIZE == 1280 && MAX_FRAGMENTS_IN_MESSAGE == 64);
    assert(fragment_count(message.len()) == (message.len() + 1279) / 1280);
    assert forall|j: int| 0 <= j < datagrams.len() implies spec_decode(#[trigger] datagrams[j])
        == Ok::<FragmentView, crate::udp_message::UdpMessageError>(fragments[order[j]]) by {
        assert(0 <= order[j] < fragments.len());
        assert(datagrams[j] == spec_encode(fragments[order[j]]));
        lemma_decode_encode(fragments[order[j]]);
    }
    assert(decoded(datagrams) =~= arrivals(fragments, order));
    lemma_prepared_pushes(s, id, datagrams);
    lemma_reassembly_with_duplicates(s.remotes[id].combiner, message, seq_id, order);
}

/// The peers of a socket, each with its own reassembly and sequence
/// numbering, reachable by id and by address.
///
/// The socket holds no endpoint. Its caller receives and transmits: it
/// hands in what came in and gets back what is to go out.
#[derive(Debug)]
pub struct Socket {
    next_remote_id: RemoteID,
    remotes: FnvHashMap<RemoteID, Remote>,
    remotes_by_addr: Vec<(PeerAddr, RemoteID)>,
}

impl View for Socket {
    type V = SocketView;

    closed spec fn view(&self) -> SocketView {
        SocketView {
            next_remote_id: self.next_remote_id,
            remotes: self.remotes@.map_values(|r: Remote| r@),
        }
    }
}

impl Socket {
    /// The invariant of the socket: that of its state and of each peer,
    /// and the address index lists every peer with its address.
    pub closed spec fn wf(&self) -> bool {
        &&& self@.wf()
        &&& forall|id: RemoteID| #[trigger]
            self.remotes@.contains_key(id) ==> self.remotes@[id].wf()
        &&& self.remotes_by_addr@.len() == self.next_remote_id
        &&& forall|i: int|
            0 <= i < self.remotes_by_addr@.len() ==> (#[trigger] self.remotes_by_addr@[i]).1 == i
                && self.remotes@[i as u32]@.addr == self.remotes_by_addr@[i].0
    }

    /// The state of a socket that is well formed is well formed.
    pub proof fn lemma_wf_view(&self)
        requires
            self.wf(),
        ensures
            self@.wf(),
    {
    }

    /// A socket that knows no peer.
    pub fn new() -> (socket: Socket)
        ensures
            socket.wf(),
            socket@ == SocketView::empty(),
    {
        let socket = Socket {
            next_remote_id: 0,
            remotes: FnvHashMap::default(),
            remotes_by_addr: Vec::new(),
        };
        proof {
            assert(socket@.remotes =~= Map::<RemoteID, RemoteView>::empty());
        }
        socket
    }

    /// The record of the peer with this id, if there is one.
    pub fn remote(&self, remote_id: RemoteID) -> (remote: Option<&Remote>)
        requires
            self.wf(),
        ensures
            remote is Some <==> self@.remotes.contains_key(remote_id),
            remote matches Some(r) ==> r.wf() && r@ == self@.remotes[remote_id],
    {
        map_get(&self.remotes, &remote_id)
    }

    /// The id of the peer at `addr`, if the socket knows one.
    pub fn remote_of(&self, addr: &PeerAddr) -> (found: Option<RemoteID>)
        requires
            self.wf(),
        ensures
            found == self@.remote_of(*addr),
    {
        let mut i: usize = 0;
        while i < self.remotes_by_addr.len()
            invariant
                self.wf(),
                i <= self.remotes_by_addr@.len(),
                forall|j: int| 0 <= j < i ==> (#[trigger] self.remotes_by_addr@[j]).0 != *addr,
            decreases self.remotes_by_addr@.len() - i,
        {
            if self.remotes_by_addr[i].0 == *addr {
                let id = self.remotes_by_addr[i].1;
                proof {
                    assert(self@.remotes.contains_key(id));
                    assert(self@.remotes[id].addr == *addr);
                    let chosen = self@.remote_of(*addr)->0;
                    assert(self@.remotes.contains_key(chosen) && self@.remotes[chosen].addr
                        == *addr);
                    assert(self@.remotes[chosen].addr == self@.remotes[id].addr);
                }
                return Some(id);
            }
            i += 1;
        }
        proof {
            assert forall|id: RemoteID| #[trigger]
                self@.remotes.contains_key(id) implies self@.remotes[id].addr != *addr by {
                assert(self.remotes_by_addr@[id as int].0 != *addr);
            }
        }
        None
    }

    fn register(&mut self, addr: PeerAddr, status: RemoteStatus) -> (id: RemoteID)
        requires
            old(self).wf(),
            old(self)@.remote_of(addr) is None,
            old(self)@.has_room(),
        ensures
            final(self).wf(),
            final(self)@ == old(self)@.registered(addr, status),
            id == old(self)@.next_remote_id,
    {
        let remote_id = self.next_remote_id;
        let remote = Remote::new(remote_id, addr, status);
        map_insert(&mut self.remotes, remote_id, remote);
        self.remotes_by_addr.push((addr, remote_id));
        self.next_remote_id += 1;
        proof {
            let before = old(self)@;
            assert(self@.remotes =~= before.remotes.insert(
                remote_id,
                RemoteView::fresh(remote_id, addr, status),
            ));
            assert forall|a: RemoteID, b: RemoteID|
                #![trigger self@.remotes[a], self@.remotes[b]]
                self@.remotes.contains_key(a) && self@.remotes.contains_key(b)
                    && self@.remotes[a].addr == self@.remotes[b].addr implies a == b by {
                if a != b {
                    if a == remote_id {
                        assert(before.remotes.contains_key(b) && before.remotes[b].addr == addr);
                    } else if b == remote_id {
                        assert(before.remotes.contains_key(a) && before.remotes[a].addr == addr);
                    } else {
                        assert(before.remotes[a].addr == before.remotes[b].addr);
                    }
                }
            }
            assert forall|i: int| 0 <= i < self.remotes_by_addr@.len() implies (
            #[trigger] self.remotes_by_addr@[i]).1 == i && self.remotes@[i as u32]@.addr
                == self.remotes_by_addr@[i].0 by {
                if i < remote_id {
                    assert(old(self).remotes_by_addr@[i].1 == i);
                }
            }
        }
        remote_id
    }

    /// Makes the endpoint at `remote_addr` a peer and gives its id.
    ///
    /// An address that is a peer already keeps its id: one address is
    /// never two peers. No id is given when all ids are in use.
    pub fn try_connect(&mut self, remote_addr: PeerAddr) -> (id: Option<RemoteID>)
        requires
            old(self).wf(),
        ensures
            final(self).wf(),
            final(self)@ == old(self)@.connected(remote_addr),
            id == old(self)@.connect_result(remote_addr),
    {
        match self.remote_of(&remote_addr) {
            Some(id) => Some(id),
            None => {
                if self.next_remote_id < u32::MAX {
                    Some(self.register(remote_addr, RemoteStatus::NotStarted))
                } else {
                    None
                }
            },
        }
    }

    /// Takes in one datagram that came from `from`, and reports the peer
    /// that it made, if it made one.
    pub fn receive_datagram(&mut self, udp_message: UdpMessage<Box<[u8]>>, from: PeerAddr) -> (event:
        Option<InEvent>)
        requires
            old(self).wf(),
        ensures
            final(self).wf(),
            final(self)@ == old(self)@.routed(udp_message@, from),
            event == old(self)@.routed_event(udp_message@, from),
    {
        let ghost before = self@;
        match self.remote_of(&from) {
            Some(id) => {
                // the peer is known: the datagram is its own to take in
                let mut remote = map_remove(&mut self.remotes, &id).unwrap();
                remote.push_udp_message(udp_message);
                map_insert(&mut self.remotes, id, remote);
                proof {
                    assert(self@.remotes =~= before.remotes.insert(
                        id,
                        before.remotes[id].received(udp_message@),
                    ));
                    assert(before.remotes[id].received(udp_message@).addr
                        == before.remotes[id].addr);
                    assert(self@.wf());
                    assert forall|i: int| 0 <= i < self.remotes_by_addr@.len() implies (
                    #[trigger] self.remotes_by_addr@[i]).1 == i && self.remotes@[i as u32]@.addr
                        == self.remotes_by_addr@[i].0 by {
                        assert(old(self).remotes_by_addr@[i].1 == i);
                    }
                }
                None
            },
            None => {
                // nobody is known at this address: a datagram that is well
                // formed is taken as a request to connect
                let header = UdpMessage::<Box<[u8]>>::check_header(udp_message.as_bytes());
                if header.is_ok() && self.next_remote_id < u32::MAX {
                    let id = self.register(from, RemoteStatus::AckConnecting(0));
                    Some(InEvent::NewConnectionFrom(from, id, true))
                } else {
                    None
                }
            },
        }
    }

    /// Takes in the datagrams that the endpoint received since the last
    /// call, in the order of their arrival, and reports the peers that they
    /// made.
    pub fn prepare_iteration(&mut self, datagrams: VecDeque<Inbound>) -> (events: Vec<InEvent>)
        requires
            old(self).wf(),
        ensures
            final(self).wf(),
            final(self)@ == old(self)@.prepared(inbound_view(datagrams@)),
            events@ == old(self)@.prepared_events(inbound_view(datagrams@)),
    {
        let ghost before = self@;
        let ghost all = inbound_view(datagrams@);
        let mut datagrams = datagrams;
        let mut events: Vec<InEvent> = Vec::new();
        let ghost mut taken: int = 0;
        proof {
            assert(all.take(0) =~= Seq::empty());
        }
        loop
            invariant
                self.wf(),
                0 <= taken <= all.len(),
                inbound_view(datagrams@) == all.skip(taken),
                self@ == before.prepared(all.take(taken)),
                events@ == before.prepared_events(all.take(taken)),
            ensures
                taken == all.len(),
            decreases datagrams@.len(),
        {
            let ghost left = datagrams@;
            match datagrams.pop_front() {
                None => {
                    proof {
                        assert(all.skip(taken).len() == 0);
                    }
                    break ;
                },
                Some((udp_message, socket_addr)) => {
                    proof {
                        assert(inbound_view(left).len() == left.len());
                        assert(all.skip(taken).len() == all.len() - taken);
                        assert(inbound_view(left)[0] == all.skip(taken)[0]);
                        assert(all[taken] == (udp_message@, socket_addr));
                        assert(all.take(taken + 1).drop_last() =~= all.take(taken));
                        assert(all.take(taken + 1).last() == all[taken]);
                        assert forall|i: int| 0 <= i < datagrams@.len() implies inbound_view(
                            datagrams@,
                        )[i] == all.skip(taken + 1)[i] by {
                            assert(datagrams@[i] == left[i + 1]);
                            assert(inbound_view(left)[i + 1] == all.skip(taken)[i + 1]);
                        }
                        assert(inbound_view(datagrams@) =~= all.skip(taken + 1));
                    }
                    match self.receive_datagram(udp_message, socket_addr) {
                        Some(event) => {
                            events.push(event);
                        },
                        None => {},
                    }
                    proof {
                        taken = taken + 1;
                    }
                },
            }
        }
        proof {
            assert(all.take(taken) =~= all);
        }
        events
    }

    /// Takes all ready messages of one peer, oldest first.
    ///
    /// Only what was handed to `prepare_iteration` before the call can be
    /// ready.
    pub fn receive_all_messages_from(&mut self, remote_id: RemoteID) -> (r: Result<
        VecDeque<Box<[u8]>>,
        SocketError,
    >)
        requires
            old(self).wf(),
        ensures
            final(self).wf(),
            !old(self)@.remotes.contains_key(remote_id) ==> r == Err::<
                VecDeque<Box<[u8]>>,
                SocketError,
            >(SocketError::InvalidRemoteId(remote_id)) && final(self)@ == old(self)@,
            old(self)@.remotes.contains_key(remote_id) ==> (r matches Ok(messages)
                && messages_view(messages@) == old(self)@.remotes[remote_id].combiner.out
                && final(self)@ == old(self)@.drained(remote_id)),
    {
        let ghost before = self@;
        let mut remote = match map_remove(&mut self.remotes, &remote_id) {
            Some(remote) => remote,
            None => {
                proof {
                    assert(self.remotes@ =~= old(self).remotes@);
                }
                return Err(SocketError::InvalidRemoteId(remote_id));
            },
        };
        let messages = remote.extract_out_messages();
        map_insert(&mut self.remotes, remote_id, remote);
        proof {
            assert(self@.remotes =~= before.remotes.insert(
                remote_id,
                before.remotes[remote_id].drained(),
            ));
            assert(self@.wf());
            assert forall|i: int| 0 <= i < self.remotes_by_addr@.len() implies (
            #[trigger] self.remotes_by_addr@[i]).1 == i && self.remotes@[i as u32]@.addr
                == self.remotes_by_addr@[i].0 by {
                assert(old(self).remotes_by_addr@[i].1 == i);
            }
        }
        Ok(messages)
    }

    /// Takes in the datagrams as `prepare_iteration` does, then takes the
    /// ready messages of every peer. The peers come in the order of their
    /// ids, each with its messages, oldest first.
    pub fn receive_all_messages(&mut self, datagrams: VecDeque<Inbound>) -> (r: (
        Vec<InEvent>,
        Vec<(RemoteID, VecDeque<Box<[u8]>>)>,
    ))
        requires
            old(self).wf(),
        ensures
            final(self).wf(),
            final(self)@ == old(self)@.prepared(inbound_view(datagrams@)).drained_all(),
            r.0@ == old(self)@.prepared_events(inbound_view(datagrams@)),
            r.1@.len() == old(self)@.prepared(inbound_view(datagrams@)).next_remote_id,
            forall|i: int|
                0 <= i < r.1@.len() ==> (#[trigger] r.1@[i]).0 == i && messages_view(r.1@[i].1@)
                    == old(self)@.prepared(inbound_view(datagrams@)).remotes[i as u32].combiner.out,
    {
        let events = self.prepare_iteration(datagrams);
        let ghost prepared = self@;
        let mut received: Vec<(RemoteID, VecDeque<Box<[u8]>>)> = Vec::new();
        let mut remote_id: RemoteID = 0;
        while remote_id < self.next_remote_id
            invariant
                self.wf(),
                prepared.wf(),
                remote_id <= self@.next_remote_id == prepared.next_remote_id,
                received@.len() == remote_id,
                forall|id: RemoteID| #[trigger]
                    self@.remotes.contains_key(id) <==> prepared.remotes.contains_key(id),
                forall|id: RemoteID|
                    prepared.remotes.contains_key(id) ==> #[trigger] self@.remotes[id] == (if id
                        < remote_id {
                        prepared.remotes[id].drained()
                    } else {
                        prepared.remotes[id]
                    }),
                forall|i: int|
                    0 <= i < received@.len() ==> (#[trigger] received@[i]).0 == i && messages_view(
                        received@[i].1@,
                    ) == prepared.remotes[i as u32].combiner.out,
            decreases self@.next_remote_id - remote_id,
        {
            let ghost before = self@;
            proof {
                assert(before.remotes.contains_key(remote_id));
                assert(before.remotes[remote_id] == prepared.remotes[remote_id]);
            }
            match self.receive_all_messages_from(remote_id) {
                Ok(messages) => {
                    received.push((remote_id, messages));
                },
                Err(_) => {},
            }
            proof {
                assert forall|id: RemoteID|
                    prepared.remotes.contains_key(id) implies #[trigger] self@.remotes[id] == (
                if id < remote_id + 1 {
                    prepared.remotes[id].drained()
                } else {
                    prepared.remotes[id]
                }) by {
                    if id != remote_id {
                        assert(self@.remotes[id] == before.remotes[id]);
                    }
                }
            }
            remote_id += 1;
        }
        proof {
            assert(self@.remotes =~= prepared.remotes.map_values(|r: RemoteView| r.drained()));
        }
        (events, received)
    }

    /// Splits a message for one peer into datagrams, in the order in which
    /// they are to be transmitted, and moves on to the peer's next
    /// sequence id.
    ///
    /// Fails, and changes nothing, if no peer has this id or if the message
    /// needs more than 64 fragments. An empty message is not a message. The
    /// delivery class and the priority are taken and not acted on.
    pub fn send_message(
        &mut self,
        remote_id: RemoteID,
        message: &[u8],
        t: MessageType,
        priority: i8,
    ) -> (r: Result<Outgoing, SocketError>)
        requires
            old(self).wf(),
            message@.len() > 0,
        ensures
            final(self).wf(),
            send_outcome(old(self)@, final(self)@, remote_id, message@, r),
    {
        let ghost before = self@;
        let (seq_id, to) = match map_get(&self.remotes, &remote_id) {
            Some(remote) => (remote.next_seq_id, remote.remote_socket_addr),
            None => {
                return Err(SocketError::InvalidRemoteId(remote_id));
            },
        };
        let mut fragments = match build_fragments_from_data(message, seq_id) {
            Ok(fragments) => fragments,
            Err(_) => {
                return Err(SocketError::TooLarge);
            },
        };
        let ghost all = split(message@, seq_id);
        let mut datagrams: Vec<UdpMessage<Box<[u8]>>> = Vec::new();
        proof {
            assert(all.skip(0) =~= all);
        }
        loop
            invariant
                0 <= datagrams@.len() <= all.len(),
                fragments@ == all.skip(datagrams@.len() as int),
                datagrams_view(datagrams@) == all.take(datagrams@.len() as int).map_values(
                    |f: FragmentView| spec_encode(f),
                ),
            ensures
                datagrams@.len() == all.len(),
            decreases fragments@.len(),
        {
            let ghost sent = datagrams@;
            match fragments.next() {
                None => {
                    break ;
                },
                Some(fragment) => {
                    let udp_message = UdpMessage::from(&fragment);
                    datagrams.push(udp_message);
                    proof {
                        let k = sent.len() as int;
                        assert(all.skip(k).len() == all.len() - k);
                        assert(all.skip(k)[0] == all[k]);
                        assert(fragment@ == all[k]);
                        assert(datagrams@ == sent.push(udp_message));
                        assert forall|i: int| 0 <= i < k implies datagrams_view(datagrams@)[i]
                            == spec_encode(all[i]) by {
                            assert(datagrams_view(sent)[i] == all.take(k).map_values(
                                |f: FragmentView| spec_encode(f),
                            )[i]);
                        }
                        assert(all.skip(k).skip(1) =~= all.skip(k + 1));
                        assert(datagrams_view(datagrams@) =~= all.take(k + 1).map_values(
                            |f: FragmentView| spec_encode(f),
                        ));
                    }
                },
            }
        }
        proof {
            assert(all.take(all.len() as int) =~= all);
        }
        let mut remote = map_remove(&mut self.remotes, &remote_id).unwrap();
        remote.next_seq_id = if seq_id == u32::MAX {
            0
        } else {
            seq_id + 1
        };
        map_insert(&mut self.remotes, remote_id, remote);
        proof {
            assert(self@.remotes =~= before.remotes.insert(
                remote_id,
                before.remotes[remote_id].sent(),
            ));
            assert(self@.wf());
            assert forall|i: int| 0 <= i < self.remotes_by_addr@.len() implies (
            #[trigger] self.remotes_by_addr@[i]).1 == i && self.remotes@[i as u32]@.addr
                == self.remotes_by_addr@[i].0 by {
                assert(old(self).remotes_by_addr@[i].1 == i);
            }
        }
        Ok(Outgoing { to, datagrams })
    }

    /// `send_message` for a message that is repeated until it is
    /// acknowledged.
    #[inline]
    pub fn send_key_message(&mut self, remote_id: RemoteID, message: &[u8], priority: i8) -> (r:
        Result<Outgoing, SocketError>)
        requires
            old(self).wf(),
            message@.len() > 0,
        ensures
            final(self).wf(),
            send_outcome(old(self)@, final(self)@, remote_id, message@, r),
    {
        self.send_message(remote_id, message, MessageType::KeyMessage, priority)
    }

    /// `send_message` for a message that is repeated until it is
    /// acknowledged or `expiration_ms` milliseconds have gone by.
    #[inline]
    pub fn send_key_expirable_message(
        &mut self,
        remote_id: RemoteID,
        message: &[u8],
        expiration_ms: u32,
        priority: i8,
    ) -> (r: Result<Outgoing, SocketError>)
        requires
            old(self).wf(),
            message@.len() > 0,
        ensures
            final(self).wf(),
            send_outcome(old(self)@, final(self)@, remote_id, message@, r),
    {
        self.send_message(
            remote_id,
            message,
            MessageType::KeyExpirableMessage(expiration_ms),
            priority,
        )
    }

    /// `send_message` for a message that is sent once.
    #[inline]
    pub fn send_forgettable_message(&mut self, remote_id: RemoteID, message: &[u8], priority: i8) -> (r:
        Result<Outgoing, SocketError>)
        requires
            old(self).wf(),
            message@.len() > 0,
        ensures
            final(self).wf(),
            send_outcome(old(self)@, final(self)@, remote_id, message@, r),
    {
        self.send_message(remote_id, message, MessageType::Forgettable, priority)
    }

    /// `send_message` for a message that is sent once and may be dropped
    /// under congestion.
    #[inline]
    pub fn send_droppable_message(&mut self, remote_id: RemoteID, message: &[u8], priority: i8) -> (r:
        Result<Outgoing, SocketError>)
        requires
            old(self).wf(),
            message@.len() > 0,
        ensures
            final(self).wf(),
            send_outcome(old(self)@, final(self)@, remote_id, message@, r),
    {
        self.send_message(remote_id, message, MessageType::Droppable, priority)
    }
}

} // verus!
