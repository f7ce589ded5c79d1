//! The clients that are connected, and the outbox of frames that wait to be written to
//! their sockets.

use vstd::prelude::*;
use crate::game::lemma_ids_compare_by_value;
use crate::ids::{is_random_uuid, mint_id, ClientId, ListenerId};
use crate::protocol::{
    send_packets, ClientBoundPacket, ClientBoundView, Frame, FrameView,
    WrappedServerBoundPacket, WrappedServerBoundView,
};
use crate::seqs::views_of;
use crate::vec_map::{
    distinct_keys, first_index, has_key, lemma_first_index, lemma_push_new_key,
    lemma_remove_entry, lemma_update_value, VecMap,
};

verus! {

/// One connected client: its id, and the listener it is bound to.
#[derive(Clone, Copy, PartialEq, Eq, Structural, Debug)]
pub struct Client {
    pub id: ClientId,
    pub listener: ListenerId,
}

impl Client {
    pub fn new(id: ClientId, listener: ListenerId) -> (client: Self)
        ensures
            client.id == id,
            client.listener == listener,
    {
        Client { id, listener }
    }
}

/// What happened to a client's connection.
#[derive(Debug, PartialEq, Eq)]
pub enum ClientEventData {
    /// The client connected.
    Connect,
    /// The client sent a frame that decoded to these packets.
    Message(Vec<WrappedServerBoundPacket>),
    /// The client's connection closed.
    Disconnect,
}

/// What a [`ClientEventData`] holds.
pub enum ClientEventDataView {
    Connect,
    Message(Seq<WrappedServerBoundView>),
    Disconnect,
}

impl View for ClientEventData {
    type V = ClientEventDataView;

    open spec fn view(&self) -> ClientEventDataView {
        match self {
            ClientEventData::Connect => ClientEventDataView::Connect,
            ClientEventData::Message(packets) => ClientEventDataView::Message(views_of(packets@)),
            ClientEventData::Disconnect => ClientEventDataView::Disconnect,
        }
    }
}

/// An event of one client's connection.
#[derive(Debug, PartialEq, Eq)]
pub struct ClientEvent {
    pub data: ClientEventData,
    pub client_id: ClientId,
}

/// What a [`ClientEvent`] holds.
pub struct ClientEventView {
    pub data: ClientEventDataView,
    pub client_id: ClientId,
}

impl View for ClientEvent {
    type V = ClientEventView;

    open spec fn view(&self) -> ClientEventView {
        ClientEventView { data: self.data@, client_id: self.client_id }
    }
}

impl ClientEvent {
    pub fn connect(client_id: ClientId) -> (event: Self)
        ensures
            event.client_id == client_id,
            event.data is Connect,
    {
        ClientEvent { data: ClientEventData::Connect, client_id }
    }

    pub fn message(packets: Vec<WrappedServerBoundPacket>, client_id: ClientId) -> (event: Self)
        ensures
            event.client_id == client_id,
            event.data == ClientEventData::Message(packets),
    {
        ClientEvent { data: ClientEventData::Message(packets), client_id }
    }

    pub fn disconnect(client_id: ClientId) -> (event: Self)
        ensures
            event.client_id == client_id,
            event.data is Disconnect,
    {
        ClientEvent { data: ClientEventData::Disconnect, client_id }
    }
}

/// What a [`ClientHandler`] holds.
pub struct ClientHandlerView {
    /// The connected clients, in the order in which they connected.
    pub clients: Seq<(ClientId, Client)>,
    /// The frames that wait to be written, oldest first.
    pub outbox: Seq<FrameView>,
}

impl ClientHandlerView {
    /// Whether `client_id` is connected.
    pub open spec fn has_client(self, client_id: ClientId) -> bool {
        has_key(self.clients, client_id)
    }

    /// Whether a client is entered under an id that has the bits of a random UUID, which
    /// a freshly minted id could therefore clash with.
    pub open spec fn has_random_id(self) -> bool {
        exists|client_id: ClientId|
            is_random_uuid(client_id) && #[trigger] self.has_client(client_id)
    }

    /// The listener that the connected client `client_id` is bound to.
    pub open spec fn listener_of(self, client_id: ClientId) -> ListenerId {
        self.clients[first_index(self.clients, client_id)].1.listener
    }

    /// Whether a client is bound to `listener`.
    pub open spec fn is_bound(self, listener: ListenerId) -> bool {
        exists|i: int| 0 <= i < self.clients.len()
            && (#[trigger] self.clients[i]).1.listener == listener
    }

    /// The invariant of the registry: every client is entered once, under its id.
    pub open spec fn wf(self) -> bool {
        &&& distinct_keys(self.clients)
        &&& forall|i: int| 0 <= i < self.clients.len()
            ==> (#[trigger] self.clients[i]).0 == self.clients[i].1.id
    }

    /// Whether the same clients are connected as in `other`, in the same order.
    pub open spec fn same_clients(self, other: ClientHandlerView) -> bool {
        &&& self.clients.len() == other.clients.len()
        &&& forall|i: int| 0 <= i < self.clients.len()
            ==> (#[trigger] self.clients[i]).0 == other.clients[i].0
    }

    /// The registry with the client `client_id` bound to `listener`.
    pub open spec fn rebound(self, client_id: ClientId, listener: ListenerId) -> ClientHandlerView {
        ClientHandlerView {
            clients: self.clients.update(
                first_index(self.clients, client_id),
                (client_id, Client { id: client_id, listener }),
            ),
            ..self
        }
    }
}

/// The registry of connected clients, with the outbox.
pub struct ClientHandler {
    pub client_list: VecMap<ClientId, Client>,
    pub outbox: Vec<Frame>,
}

impl View for ClientHandler {
    type V = ClientHandlerView;

    open spec fn view(&self) -> ClientHandlerView {
        ClientHandlerView { clients: self.client_list@, outbox: views_of(self.outbox@) }
    }
}

impl ClientHandler {
    /// The invariant of the registry: every client is entered once, under its id.
    pub open spec fn wf(&self) -> bool {
        self@.wf()
    }

    /// A registry without clients, with an empty outbox.
    pub fn new() -> (handler: Self)
        ensures
            handler.wf(),
            handler@.clients.len() == 0,
            handler@.outbox.len() == 0,
    {
        ClientHandler { client_list: VecMap::new(), outbox: Vec::new() }
    }

    /// Enters a client under the given id, bound to `listener`, and queues the frame that
    /// tells the client its id. An id that is taken is refused.
    pub fn add_client_with_id(&mut self, id: ClientId, listener: ListenerId) -> (added: bool)
        requires
            old(self).wf(),
        ensures
            final(self).wf(),
            added == !old(self)@.has_client(id),
            added ==> {
                &&& final(self)@.clients == old(self)@.clients.push((id, Client { id, listener }))
                &&& final(self)@.outbox == old(self)@.outbox.push(
                    FrameView { to: id, packets: seq![ClientBoundView::SetId(id)] },
                )
            },
            !added ==> final(self)@ == old(self)@,
    {
        proof {
            lemma_ids_compare_by_value();
        }
        if self.client_list.contains_key(&id) {
            return false;
        }
        proof {
            lemma_push_new_key(self@.clients, id, Client { id, listener });
        }
        self.client_list.insert(id, Client::new(id, listener));
        let mut packets: Vec<ClientBoundPacket> = Vec::new();
        packets.push(ClientBoundPacket::SetId(id));
        assert(views_of(packets@) =~= seq![ClientBoundView::SetId(id)]);
        send_packets(&mut self.outbox, id, packets);
        true
    }

    /// Enters a newly connected client under a freshly minted id, bound to `listener`,
    /// and queues the frame that tells the client its id. Returns the id, or nothing in
    /// the event that the minted id is taken. That can only happen where a client is
    /// entered under a random id already: into a registry without such a client, the
    /// new client is always entered.
    pub fn add_client(&mut self, listener: ListenerId) -> (id: Option<ClientId>)
        requires
            old(self).wf(),
        ensures
            final(self).wf(),
            id is None ==> old(self)@.has_random_id(),
            match id {
                Some(id) => {
                    &&& is_random_uuid(id)
                    &&& !old(self)@.has_client(id)
                    &&& final(self)@.clients
                        == old(self)@.clients.push((id, Client { id, listener }))
                    &&& final(self)@.outbox == old(self)@.outbox.push(
                        FrameView { to: id, packets: seq![ClientBoundView::SetId(id)] },
                    )
                },
                None => final(self)@ == old(self)@,
            },
    {
        let id = mint_id();
        if self.add_client_with_id(id, listener) {
            Some(id)
        } else {
            assert(is_random_uuid(id) && old(self)@.has_client(id));
            None
        }
    }

    /// The connected client `client_id`.
    pub fn get_client(&self, client_id: ClientId) -> (client: Option<&Client>)
        requires
            self.wf(),
        ensures
            client is Some <==> self@.has_client(client_id),
            client matches Some(c)
                ==> c.id == client_id && c.listener == self@.listener_of(client_id),
    {
        proof {
            lemma_ids_compare_by_value();
            lemma_first_index(self@.clients, client_id);
        }
        self.client_list.get(&client_id)
    }

    /// Binds the connected client `client_id` to `listener`. Returns whether the client is
    /// connected.
    pub fn rebind(&mut self, client_id: ClientId, listener: ListenerId) -> (bound: bool)
        requires
            old(self).wf(),
        ensures
            final(self).wf(),
            bound == old(self)@.has_client(client_id),
            final(self)@ == if bound {
                old(self)@.rebound(client_id, listener)
            } else {
                old(self)@
            },
            final(self)@.same_clients(old(self)@),
    {
        proof {
            lemma_ids_compare_by_value();
            lemma_first_index(self@.clients, client_id);
        }
        match self.client_list.position(&client_id) {
            Some(i) => {
                proof {
                    lemma_update_value(self@.clients, i as int, Client { id: client_id, listener });
                }
                self.client_list.inner[i].1.listener = listener;
                assert(self@.clients =~= old(self)@.rebound(client_id, listener).clients);
                true
            },
            None => false,
        }
    }

    /// Forgets the client `client_id`, and returns what was known of it.
    pub fn remove_client(&mut self, client_id: ClientId) -> (client: Option<Client>)
        requires
            old(self).wf(),
        ensures
            final(self).wf(),
            final(self)@.outbox == old(self)@.outbox,
            !final(self)@.has_client(client_id),
            match client {
                Some(c) => {
                    &&& old(self)@.has_client(client_id)
                    &&& c.id == client_id
                    &&& c.listener == old(self)@.listener_of(client_id)
                    &&& final(self)@.clients == old(self)@.clients.remove(
                        first_index(old(self)@.clients, client_id),
                    )
                },
                None => !old(self)@.has_client(client_id)
                    && final(self)@.clients == old(self)@.clients,
            },
    {
        proof {
            lemma_ids_compare_by_value();
            lemma_first_index(self@.clients, client_id);
            if has_key(self@.clients, client_id) {
                lemma_remove_entry(self@.clients, first_index(self@.clients, client_id));
            }
        }
        let removed = self.client_list.remove(&client_id);
        proof {
            assert forall|i: int| 0 <= i < self@.clients.len()
                implies (#[trigger] self@.clients[i]).0
                == self@.clients[i].1.id by {
                if removed is Some {
                    let at = first_index(old(self)@.clients, client_id);
                    let i0 = if i < at { i } else { i + 1 };
                    assert(self@.clients[i] == old(self)@.clients[i0]);
                }
            }
        }
        removed
    }

    /// Queues one frame of `packets` for the client `client_id`. Returns whether the
    /// client is connected; for a client that is not, nothing is queued.
    pub fn send_packets(
        &mut self,
        client_id: ClientId,
        packets: Vec<ClientBoundPacket>,
    ) -> (sent: bool)
        requires
            old(self).wf(),
        ensures
            final(self).wf(),
            sent == old(self)@.has_client(client_id),
            final(self)@.clients == old(self)@.clients,
            final(self)@.outbox == if sent {
                old(self)@.outbox.push(FrameView { to: client_id, packets: views_of(packets@) })
            } else {
                old(self)@.outbox
            },
    {
        proof {
            lemma_ids_compare_by_value();
        }
        if self.client_list.contains_key(&client_id) {
            send_packets(&mut self.outbox, client_id, packets);
            true
        } else {
            false
        }
    }

    /// Queues one frame with the one packet for the client `client_id`. Returns whether
    /// the client is connected; for a client that is not, nothing is queued.
    pub fn send_packet(&mut self, client_id: ClientId, packet: ClientBoundPacket) -> (sent: bool)
        requires
            old(self).wf(),
        ensures
            final(self).wf(),
            sent == old(self)@.has_client(client_id),
            final(self)@.clients == old(self)@.clients,
            final(self)@.outbox == if sent {
                old(self)@.outbox.push(FrameView { to: client_id, packets: seq![packet@] })
            } else {
                old(self)@.outbox
            },
    {
        let mut packets: Vec<ClientBoundPacket> = Vec::new();
        packets.push(packet);
        assert(views_of(packets@) =~= seq![packet@]);
        self.send_packets(client_id, packets)
    }

    /// Whether a client is bound to `listener`.
    pub fn is_bound(&self, listener: ListenerId) -> (bound: bool)
        ensures
            bound == self@.is_bound(listener),
    {
        let mut i: usize = 0;
        while i < self.client_list.len()
            invariant
                i <= self.client_list.len(),
                forall|j: int| 0 <= j < i ==> (#[trigger] self@.clients[j]).1.listener != listener,
            decreases self.client_list.len() - i,
        {
            if self.client_list.inner[i].1.listener == listener {
                assert(self@.clients[i as int].1.listener == listener);
                return true;
            }
            i += 1;
        }
        false
    }

    /// The ids of the connected clients, in the order in which they connected.
    pub fn client_ids(&self) -> (ids: Vec<ClientId>)
        ensures
            ids@ == Seq::new(self@.clients.len(), |i: int| self@.clients[i].0),
    {
        let mut ids: Vec<ClientId> = Vec::new();
        let mut i: usize = 0;
        while i < self.client_list.len()
            invariant
                i <= self.client_list.len(),
                ids@ == Seq::new(i as nat, |j: int| self@.clients[j].0),
            decreases self.client_list.len() - i,
        {
            ids.push(self.client_list.inner[i].0);
            assert(ids@ =~= Seq::new((i + 1) as nat, |j: int| self@.clients[j].0));
            i += 1;
        }
        ids
    }

    /// Hands over the frames that wait to be written, oldest first, and empties the
    /// outbox.
    pub fn take_outbox(&mut self) -> (frames: Vec<Frame>)
        requires
            old(self).wf(),
        ensures
            final(self).wf(),
            views_of(frames@) == old(self)@.outbox,
            final(self)@.outbox.len() == 0,
            final(self)@.clients == old(self)@.clients,
    {
        let mut frames: Vec<Frame> = Vec::new();
        std::mem::swap(&mut frames, &mut self.outbox);
        frames
    }
}

/// Registries of the same clients know the same clients, in the same places.
pub proof fn lemma_same_clients(a: ClientHandlerView, b: ClientHandlerView)
    requires
        a.same_clients(b),
    ensures
        forall|id: ClientId| #[trigger] first_index(a.clients, id) == first_index(b.clients, id),
        forall|id: ClientId| #[trigger] a.has_client(id) == b.has_client(id),
{
    assert forall|id: ClientId| #[trigger] first_index(a.clients, id)
        == first_index(b.clients, id) by {
        lemma_first_index(a.clients, id);
        lemma_first_index(b.clients, id);
        let x = first_index(a.clients, id);
        let y = first_index(b.clients, id);
        if x < y {
            assert(b.clients[x].0 == a.clients[x].0);
        }
        if y < x {
            assert(a.clients[y].0 == b.clients[y].0);
        }
    }
    assert forall|id: ClientId| #[trigger] a.has_client(id) == b.has_client(id) by {
        assert(first_index(a.clients, id) == first_index(b.clients, id));
    }
}

} // verus!
