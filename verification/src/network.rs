//! The network hub: it owns the clients and the listeners, hands each client event to the
//! listener that the client is bound to, acknowledges wrapped packets, and drops the
//! games that have terminated.

use vstd::prelude::*;
use crate::cards::Pack;
use crate::clients::{
    lemma_same_clients, Client, ClientEvent, ClientEventData, ClientEventDataView,
    ClientEventView, ClientHandler, ClientHandlerView,
};
use crate::game::GameView;
use crate::ids::{is_random_uuid, mint_id, ClientId, ListenerId, PacketId};
use crate::lobby::{
    all_bound, can_reap, handles_after_reap, kept_games, store_after_reap, AddGameError, Lobby,
    LobbyView,
};
use crate::pack_store::{released, PackError, PackStore, PackStoreView};
use crate::protocol::{
    frames_since, lemma_queued, only_grew, ClientBoundPacket, ClientBoundView, Frame, FrameView,
    GameSetting, GameSettingView, GameSettings, PacketResponse, PacketResponseView,
    ServerBoundPacket, ServerBoundView, WrappedServerBoundPacket, WrappedServerBoundView,
};
use crate::seqs::views_of;
use crate::vec_map::{first_index, lemma_first_index};

verus! {

/// What a [`NetworkHandler`] holds.
pub struct NetworkView {
    pub clients: ClientHandlerView,
    pub lobby: LobbyView,
    pub stopped: bool,
}

impl NetworkView {
    /// The invariant of the hub: the registry of clients and the lobby are in order, and
    /// every client is bound to a listener that exists.
    pub open spec fn wf(self) -> bool {
        &&& self.clients.wf()
        &&& self.lobby.wf()
        &&& all_bound(self.lobby, self.clients)
    }

    /// Whether `mid` and `post` are what handing `packet` to the game `listener` makes of
    /// the hub: `mid` after the game handled the packet, then `post` after the sender,
    /// if the game accepted their request to leave, was forwarded to the lobby.
    pub open spec fn game_dispatched(
        self,
        listener: ListenerId,
        packet: ServerBoundView,
        sender: ClientId,
        response: PacketResponseView,
        mid: NetworkView,
        post: NetworkView,
    ) -> bool {
        let seat = self.lobby.game_index(listener);
        &&& mid.stopped == self.stopped
        &&& post.stopped == self.stopped
        &&& mid.clients.clients == self.clients.clients
        &&& only_grew(self.clients.outbox, mid.clients.outbox)
        &&& mid.lobby.id == self.lobby.id
        &&& mid.lobby.handles == self.lobby.handles
        &&& mid.lobby.games == self.lobby.games.update(seat, mid.lobby.games[seat])
        &&& self.lobby.games[seat].packet_handled(
            self.lobby.store,
            packet,
            sender,
            response,
            mid.lobby.games[seat],
            mid.lobby.store,
            frames_since(self.clients.outbox, mid.clients.outbox),
        )
        &&& if packet is LeaveGame && response is Accepted && mid.clients.has_client(sender) {
            mid.lobby.forwarded(mid.clients, sender, mid.lobby.id, post.lobby, post.clients)
        } else {
            post == mid
        }
    }

    /// What handing one packet of `sender` to the listener `listener` comes to: the lobby
    /// handles it by its rules, a game by the game's; a listener that is gone rejects it.
    pub open spec fn dispatched(
        self,
        listener: ListenerId,
        packet: ServerBoundView,
        sender: ClientId,
        response: PacketResponseView,
        post: NetworkView,
    ) -> bool {
        if listener == self.lobby.id {
            &&& post.stopped == self.stopped
            &&& self.lobby.packet_handled(
                self.clients,
                packet,
                sender,
                response,
                post.lobby,
                post.clients,
            )
        } else if self.lobby.has_game(listener) {
            exists|mid: NetworkView| #[trigger]
                self.game_dispatched(listener, packet, sender, response, mid, post)
        } else {
            response == PacketResponseView::Rejected && post == self
        }
    }
}

/// The hub.
pub struct NetworkHandler {
    pub client_handler: ClientHandler,
    pub lobby: Lobby,
    pub stopped: bool,
}

impl View for NetworkHandler {
    type V = NetworkView;

    open spec fn view(&self) -> NetworkView {
        NetworkView { clients: self.client_handler@, lobby: self.lobby@, stopped: self.stopped }
    }
}

impl NetworkHandler {
    /// The invariant of the hub: the registry of clients and the lobby are in order, and
    /// every client is bound to a listener that exists.
    pub open spec fn wf(&self) -> bool {
        self@.wf()
    }

    /// A hub without clients or games, whose lobby has the id `lobby_id`.
    pub fn with_lobby_id(lobby_id: ListenerId, pack_store: PackStore) -> (hub: Self)
        requires
            pack_store.wf(),
            pack_store@.nothing_held(),
        ensures
            hub.wf(),
            !hub@.stopped,
            hub@.clients.clients.len() == 0,
            hub@.clients.outbox.len() == 0,
            hub@.lobby == (LobbyView {
                id: lobby_id,
                store: pack_store@,
                games: Seq::empty(),
                handles: Seq::empty(),
            }),
    {
        NetworkHandler {
            client_handler: ClientHandler::new(),
            lobby: Lobby::new(lobby_id, pack_store),
            stopped: false,
        }
    }

    /// A hub without clients or games, whose lobby has a freshly minted id.
    pub fn new(pack_store: PackStore) -> (hub: Self)
        requires
            pack_store.wf(),
            pack_store@.nothing_held(),
        ensures
            hub.wf(),
            !hub@.stopped,
            is_random_uuid(hub@.lobby.id),
            hub@.clients.clients.len() == 0,
            hub@.clients.outbox.len() == 0,
            hub@.lobby == (LobbyView {
                id: hub@.lobby.id,
                store: pack_store@,
                games: Seq::empty(),
                handles: Seq::empty(),
            }),
    {
        Self::with_lobby_id(mint_id(), pack_store)
    }

    /// The id of the lobby.
    pub fn lobby_id(&self) -> (id: ListenerId)
        ensures
            id == self@.lobby.id,
    {
        self.lobby.id
    }

    /// Whether `id` names a listener: the lobby, or a game.
    pub fn valid_listener(&self, id: ListenerId) -> (valid: bool)
        ensures
            valid == self@.lobby.is_listener(id),
    {
        self.lobby.valid_listener(id)
    }

    /// Enters a newly connected client under the given id, bound to the lobby, and queues
    /// the frame that tells the client its id. An id that is taken is refused.
    pub fn add_client_with_id(&mut self, id: ClientId) -> (added: bool)
        requires
            old(self).wf(),
        ensures
            final(self).wf(),
            final(self)@.lobby == old(self)@.lobby,
            final(self)@.stopped == old(self)@.stopped,
            added == !old(self)@.clients.has_client(id),
            added ==> {
                &&& final(self)@.clients.clients == old(self)@.clients.clients.push(
                    (id, Client { id, listener: old(self)@.lobby.id }),
                )
                &&& final(self)@.clients.outbox == old(self)@.clients.outbox.push(
                    FrameView { to: id, packets: seq![ClientBoundView::SetId(id)] },
                )
            },
            !added ==> final(self)@ == old(self)@,
    {
        let added = self.client_handler.add_client_with_id(id, self.lobby.id);
        proof {
            assert forall|i: int| 0 <= i < self@.clients.clients.len()
                implies self@.lobby.is_listener(
                (#[trigger] self@.clients.clients[i]).1.listener,
            ) by {
                if i < old(self)@.clients.clients.len() {
                    assert(self@.clients.clients[i] == old(self)@.clients.clients[i]);
                }
            }
        }
        added
    }

    /// Enters a newly connected client under a freshly minted id, bound to the lobby, and
    /// queues the frame that tells the client its id. Returns the id, or nothing in the
    /// event that the minted id is taken. That can only happen where a client is entered
    /// under a random id already: into a hub without such a client, the new client is
    /// always entered.
    pub fn add_client(&mut self) -> (id: Option<ClientId>)
        requires
            old(self).wf(),
        ensures
            final(self).wf(),
            final(self)@.lobby == old(self)@.lobby,
            final(self)@.stopped == old(self)@.stopped,
            id is None ==> old(self)@.clients.has_random_id(),
            match id {
                Some(id) => {
                    &&& is_random_uuid(id)
                    &&& !old(self)@.clients.has_client(id)
                    &&& final(self)@.clients.clients == old(self)@.clients.clients.push(
                        (id, Client { id, listener: old(self)@.lobby.id }),
                    )
                    &&& final(self)@.clients.outbox == old(self)@.clients.outbox.push(
                        FrameView { to: id, packets: seq![ClientBoundView::SetId(id)] },
                    )
                },
                None => final(self)@ == old(self)@,
            },
    {
        let id = mint_id();
        if self.add_client_with_id(id) {
            Some(id)
        } else {
            assert(is_random_uuid(id) && old(self)@.clients.has_client(id));
            None
        }
    }

    /// Binds the connected client `client_id` to the listener `listener_id`, which takes
    /// them in. Returns whether that was done: it is not where the client is not
    /// connected or the id names no listener, and then nothing changes.
    pub fn forward_client(
        &mut self,
        client_id: ClientId,
        listener_id: ListenerId,
    ) -> (forwarded: bool)
        requires
            old(self).wf(),
        ensures
            final(self).wf(),
            final(self)@.stopped == old(self)@.stopped,
            forwarded == (old(self)@.lobby.is_listener(listener_id)
                && old(self)@.clients.has_client(
                client_id,
            )),
            forwarded ==> old(self)@.lobby.forwarded(
                old(self)@.clients,
                client_id,
                listener_id,
                final(self)@.lobby,
                final(self)@.clients,
            ),
            !forwarded ==> final(self)@ == old(self)@,
    {
        self.lobby.forward_client(&mut self.client_handler, client_id, listener_id)
    }

    /// Hands one packet of `sender` to the listener `listener` and returns the verdict.
    /// A request to leave that a game accepts forwards the sender to the lobby.
    pub fn dispatch(
        &mut self,
        listener: ListenerId,
        packet: &ServerBoundPacket,
        sender: ClientId,
    ) -> (response: PacketResponse)
        requires
            old(self).wf(),
        ensures
            final(self).wf(),
            final(self)@.clients.same_clients(old(self)@.clients),
            final(self)@.lobby.id == old(self)@.lobby.id,
            old(self)@.dispatched(listener, packet@, sender, response@, final(self)@),
    {
        let ghost pre = self@;
        if listener == self.lobby.id {
            return self.lobby.handle_packet(&mut self.client_handler, packet, sender);
        }
        match self.lobby.find_game(listener) {
            Some(seat) => {
                let response = self.lobby.game_packet(
                    &mut self.client_handler.outbox,
                    seat,
                    packet,
                    sender,
                );
                let ghost mid = self@;
                proof {
                    assert forall|i: int| 0 <= i < mid.clients.clients.len()
                        implies mid.lobby.is_listener(
                        (#[trigger] mid.clients.clients[i]).1.listener,
                    ) by {
                        let bound = mid.clients.clients[i].1.listener;
                        assert(pre.lobby.is_listener(pre.clients.clients[i].1.listener));
                        assert(mid.lobby.game_index(bound) == pre.lobby.game_index(bound));
                    }
                }
                let leaving = match packet {
                    ServerBoundPacket::LeaveGame => match response {
                        PacketResponse::Accepted => true,
                        _ => false,
                    },
                    _ => false,
                };
                if leaving {
                    self.lobby.forward_client(&mut self.client_handler, sender, self.lobby.id);
                }
                proof {
                    assert(pre.game_dispatched(listener, packet@, sender, response@, mid, self@));
                }
                response
            },
            None => PacketResponse::Rejected,
        }
    }
}

/// The acknowledgements that a frame of `packets` is owed, where `responses` are the
/// verdicts on its packets: one for each packet that came wrapped with an id, in the
/// order of the packets.
pub open spec fn acks_for(
    packets: Seq<WrappedServerBoundView>,
    responses: Seq<PacketResponseView>,
) -> Seq<ClientBoundView>
    decreases packets.len(),
{
    if packets.len() == 0 {
        Seq::empty()
    } else {
        let rest = acks_for(packets.drop_last(), responses.drop_last());
        match packets.last().packet_id() {
            Some(packet_id) => rest.push(
                ClientBoundView::Ack { packet_id, response: responses.last() },
            ),
            None => rest,
        }
    }
}

/// The ids of the packets of `packets` that came wrapped, in the order of the packets.
pub open spec fn wrapped_ids(packets: Seq<WrappedServerBoundView>) -> Seq<PacketId>
    decreases packets.len(),
{
    if packets.len() == 0 {
        Seq::empty()
    } else {
        match packets.last().packet_id() {
            Some(packet_id) => wrapped_ids(packets.drop_last()).push(packet_id),
            None => wrapped_ids(packets.drop_last()),
        }
    }
}

/// Every wrapped packet is acknowledged exactly once, in the order of arrival: the
/// acknowledgements of a frame are as many as its wrapped packets, each is an `Ack`, and
/// the n-th carries the id of the n-th wrapped packet.
pub proof fn lemma_acks_match_wrapped(
    packets: Seq<WrappedServerBoundView>,
    responses: Seq<PacketResponseView>,
)
    requires
        responses.len() == packets.len(),
    ensures
        acks_for(packets, responses).len() == wrapped_ids(packets).len(),
        forall|n: int|
            0 <= n < wrapped_ids(packets).len()
                ==> (#[trigger] acks_for(packets, responses)[n]) is Ack
                && acks_for(packets, responses)[n]->Ack_packet_id == wrapped_ids(packets)[n],
    decreases packets.len(),
{
    if packets.len() > 0 {
        lemma_acks_match_wrapped(packets.drop_last(), responses.drop_last());
    }
}

impl NetworkView {
    /// Whether `post` is what a frame of `packets` from `client_id` makes of the hub,
    /// where `trace` holds the hub before each packet and after the last, and `responses`
    /// the verdicts. A frame from a client that is not connected is dropped. Else each
    /// packet in turn is handed to the listener that the client was bound to when the
    /// frame arrived, and one frame with the acknowledgements is queued for the client.
    pub open spec fn message_handled(
        self,
        client_id: ClientId,
        packets: Seq<WrappedServerBoundView>,
        trace: Seq<NetworkView>,
        responses: Seq<PacketResponseView>,
        post: NetworkView,
    ) -> bool {
        if !self.clients.has_client(client_id) {
            post == self
        } else {
            &&& trace.len() == packets.len() + 1
            &&& responses.len() == packets.len()
            &&& trace[0] == self
            &&& forall|k: int|
                0 <= k < packets.len() ==> (#[trigger] trace[k]).dispatched(
                    self.clients.listener_of(client_id),
                    packets[k].packet(),
                    client_id,
                    responses[k],
                    trace[k + 1],
                )
            &&& post == (NetworkView {
                clients: ClientHandlerView {
                    outbox: trace.last().clients.outbox.push(
                        FrameView { to: client_id, packets: acks_for(packets, responses) },
                    ),
                    ..trace.last().clients
                },
                ..trace.last()
            })
        }
    }

    /// What the connecting of `client_id` comes to: the listener that the client is bound
    /// to takes them in. For a client that is not connected nothing happens.
    pub open spec fn connect_handled(self, client_id: ClientId, post: NetworkView) -> bool {
        if !self.clients.has_client(client_id) {
            post == self
        } else {
            &&& post.stopped == self.stopped
            &&& self.lobby.forwarded(
                self.clients,
                client_id,
                self.clients.listener_of(client_id),
                post.lobby,
                post.clients,
            )
        }
    }

    /// What the disconnecting of `client_id` comes to: the game that the client is bound
    /// to lets go of them, and the client is forgotten. For a client that is not
    /// connected nothing happens.
    pub open spec fn disconnect_handled(self, client_id: ClientId, post: NetworkView) -> bool {
        if !self.clients.has_client(client_id) {
            post == self
        } else {
            let listener = self.clients.listener_of(client_id);
            let seat = self.lobby.game_index(listener);
            &&& post.stopped == self.stopped
            &&& post.clients.clients == self.clients.clients.remove(
                first_index(self.clients.clients, client_id),
            )
            &&& only_grew(self.clients.outbox, post.clients.outbox)
            &&& if self.lobby.has_game(listener) {
                &&& post.lobby.id == self.lobby.id
                &&& post.lobby.store == self.lobby.store
                &&& post.lobby.handles == self.lobby.handles
                &&& post.lobby.games == self.lobby.games.update(seat, post.lobby.games[seat])
                &&& self.lobby.games[seat].disconnect_handled(
                    client_id,
                    post.lobby.games[seat],
                    frames_since(self.clients.outbox, post.clients.outbox),
                )
            } else {
                &&& post.lobby == self.lobby
                &&& post.clients.outbox == self.clients.outbox
            }
        }
    }

    /// What one client event comes to.
    pub open spec fn event_handled(self, event: ClientEventView, post: NetworkView) -> bool {
        match event.data {
            ClientEventDataView::Connect => self.connect_handled(event.client_id, post),
            ClientEventDataView::Message(packets) => exists|
                trace: Seq<NetworkView>,
                responses: Seq<PacketResponseView>,
            | #[trigger]
                self.message_handled(event.client_id, packets, trace, responses, post),
            ClientEventDataView::Disconnect => self.disconnect_handled(event.client_id, post),
        }
    }

    /// The hub after a sweep: the games that are over and deserted and that no client is
    /// bound to are dropped, with the lobby's handles on them, their packs are let go of,
    /// and the staged packs that no game loaded are forgotten.
    pub open spec fn swept(self) -> NetworkView {
        NetworkView {
            lobby: LobbyView {
                store: PackStoreView {
                    staged: Seq::empty(),
                    ..store_after_reap(self.lobby.store, self.lobby.games, self.clients)
                },
                games: kept_games(self.lobby.games, self.clients),
                handles: handles_after_reap(self.lobby.handles, self.lobby.games, self.clients),
                ..self.lobby
            },
            ..self
        }
    }

    /// Whether `post` is what a batch of `events` makes of the hub, where `trace` holds
    /// the hub before each event and after the last: the events are handled in turn, and
    /// then the hub is swept.
    pub open spec fn batch_handled(
        self,
        events: Seq<ClientEventView>,
        trace: Seq<NetworkView>,
        post: NetworkView,
    ) -> bool {
        &&& trace.len() == events.len() + 1
        &&& trace[0] == self
        &&& forall|k: int|
            0 <= k < events.len() ==> (#[trigger] trace[k]).event_handled(events[k], trace[k + 1])
        &&& post == trace.last().swept()
    }
}

impl NetworkHandler {
    /// Handles one frame of packets from a client: hands each packet in turn to the
    /// listener that the client was bound to when the frame arrived, and queues one frame
    /// for the client with an acknowledgement for each packet that came wrapped with an
    /// id, in the order of the packets. A frame from a client that is not connected is
    /// dropped.
    pub fn handle_message(&mut self, client_id: ClientId, packets: &Vec<WrappedServerBoundPacket>)
        requires
            old(self).wf(),
        ensures
            final(self).wf(),
            final(self)@.lobby.id == old(self)@.lobby.id,
            exists|trace: Seq<NetworkView>, responses: Seq<PacketResponseView>| #[trigger]
                old(self)@.message_handled(
                    client_id,
                    views_of(packets@),
                    trace,
                    responses,
                    final(self)@,
                ),
    {
        let ghost pre = self@;
        let ghost sent = views_of(packets@);
        let listener = match self.client_handler.get_client(client_id) {
            Some(client) => client.listener,
            None => {
                assert(pre.message_handled(client_id, sent, Seq::empty(), Seq::empty(), self@));
                return ;
            },
        };
        let mut acks: Vec<ClientBoundPacket> = Vec::new();
        let ghost mut trace: Seq<NetworkView> = seq![pre];
        let ghost mut responses: Seq<PacketResponseView> = Seq::empty();
        let mut k: usize = 0;
        assert(views_of(acks@) =~= acks_for(sent.take(0), responses));
        while k < packets.len()
            invariant
                k <= packets.len(),
                sent == views_of(packets@),
                self.wf(),
                self@.lobby.id == pre.lobby.id,
                self@.clients.same_clients(pre.clients),
                listener == pre.clients.listener_of(client_id),
                trace.len() == k + 1,
                responses.len() == k,
                trace[0] == pre,
                trace.last() == self@,
                forall|j: int|
                    0 <= j < k ==> (#[trigger] trace[j]).dispatched(
                        listener,
                        sent[j].packet(),
                        client_id,
                        responses[j],
                        trace[j + 1],
                    ),
                views_of(acks@) == acks_for(sent.take(k as int), responses),
            decreases packets.len() - k,
        {
            let response = self.dispatch(listener, packets[k].packet(), client_id);
            proof {
                let longer = trace.push(self@);
                let verdicts = responses.push(response@);
                assert forall|j: int| 0 <= j < k + 1 implies (#[trigger] longer[j]).dispatched(
                    listener,
                    sent[j].packet(),
                    client_id,
                    verdicts[j],
                    longer[j + 1],
                ) by {
                    if j < k {
                        assert(longer[j] == trace[j]);
                        assert(longer[j + 1] == trace[j + 1]);
                        assert(verdicts[j] == responses[j]);
                    }
                }
                assert(sent.take(k + 1).drop_last() =~= sent.take(k as int));
                assert(verdicts.drop_last() =~= responses);
                assert(sent.take(k + 1).last() == sent[k as int]);
                trace = longer;
                responses = verdicts;
            }
            match packets[k].packet_id() {
                Some(packet_id) => {
                    let ghost so_far = views_of(acks@);
                    acks.push(ClientBoundPacket::Ack { packet_id, response });
                    assert(views_of(acks@) =~= so_far.push(acks@.last()@));
                },
                None => {},
            }
            k += 1;
        }
        proof {
            assert(sent.take(packets.len() as int) =~= sent);
            lemma_same_clients(self@.clients, pre.clients);
        }
        self.client_handler.send_packets(client_id, acks);
        proof {
            assert(pre.message_handled(client_id, sent, trace, responses, self@));
        }
    }

    /// Takes in a client that connected: the listener that it is bound to greets it.
    pub fn handle_connect(&mut self, client_id: ClientId)
        requires
            old(self).wf(),
        ensures
            final(self).wf(),
            final(self)@.lobby.id == old(self)@.lobby.id,
            old(self)@.connect_handled(client_id, final(self)@),
    {
        let listener = match self.client_handler.get_client(client_id) {
            Some(client) => client.listener,
            None => {
                return ;
            },
        };
        proof {
            lemma_first_index(self@.clients.clients, client_id);
            assert(self@.lobby.is_listener(
                self@.clients.clients[first_index(self@.clients.clients, client_id)].1.listener,
            ));
        }
        self.lobby.forward_client(&mut self.client_handler, client_id, listener);
    }

    /// Lets go of a client whose connection closed: the game that it is bound to is told,
    /// and the client is forgotten.
    pub fn handle_disconnect(&mut self, client_id: ClientId)
        requires
            old(self).wf(),
        ensures
            final(self).wf(),
            final(self)@.lobby.id == old(self)@.lobby.id,
            old(self)@.disconnect_handled(client_id, final(self)@),
    {
        let ghost pre = self@;
        let listener = match self.client_handler.get_client(client_id) {
            Some(client) => client.listener,
            None => {
                return ;
            },
        };
        proof {
            lemma_queued(pre.clients.outbox, Seq::empty());
            assert(pre.clients.outbox + Seq::<FrameView>::empty() =~= pre.clients.outbox);
        }
        match self.lobby.find_game(listener) {
            Some(seat) => {
                self.lobby.game_disconnected(&mut self.client_handler.outbox, seat, client_id);
            },
            None => {},
        }
        let ghost mid = self@;
        self.client_handler.remove_client(client_id);
        proof {
            let at = first_index(pre.clients.clients, client_id);
            lemma_first_index(pre.clients.clients, client_id);
            assert forall|i: int| 0 <= i < self@.clients.clients.len()
                implies self@.lobby.is_listener(
                (#[trigger] self@.clients.clients[i]).1.listener,
            ) by {
                let i0 = if i < at { i } else { i + 1 };
                assert(self@.clients.clients[i] == pre.clients.clients[i0]);
                let bound = pre.clients.clients[i0].1.listener;
                assert(pre.lobby.is_listener(bound));
                assert(mid.lobby.game_index(bound) == pre.lobby.game_index(bound));
            }
        }
    }

    /// Handles one client event.
    pub fn handle_event(&mut self, event: &ClientEvent)
        requires
            old(self).wf(),
        ensures
            final(self).wf(),
            final(self)@.lobby.id == old(self)@.lobby.id,
            old(self)@.event_handled(event@, final(self)@),
    {
        let ghost pre = self@;
        match &event.data {
            ClientEventData::Connect => {
                self.handle_connect(event.client_id);
            },
            ClientEventData::Message(packets) => {
                self.handle_message(event.client_id, packets);
                proof {
                    let (trace, responses) = choose|
                        trace: Seq<NetworkView>,
                        responses: Seq<PacketResponseView>,
                    | #[trigger]
                        pre.message_handled(
                            event.client_id,
                            views_of(packets@),
                            trace,
                            responses,
                            self@,
                        );
                    assert(event@.data == ClientEventDataView::Message(views_of(packets@)));
                    assert(pre.message_handled(
                        event@.client_id,
                        event@.data->Message_0,
                        trace,
                        responses,
                        self@,
                    ));
                }
            },
            ClientEventData::Disconnect => {
                self.handle_disconnect(event.client_id);
            },
        }
    }

    /// Sweeps the hub: drops the games that are over and deserted and that no client is
    /// bound to, lets go of their packs, and forgets the staged packs that no game loaded.
    pub fn reap(&mut self)
        requires
            old(self).wf(),
        ensures
            final(self).wf(),
            final(self)@ == old(self)@.swept(),
            forall|i: int|
                0 <= i < final(self)@.lobby.games.len() ==> !can_reap(
                    #[trigger] final(self)@.lobby.games[i],
                    final(self)@.clients,
                ),
    {
        let ghost pre = self@;
        self.lobby.reap(&self.client_handler);
        let ghost mid = self@;
        self.lobby.pack_store.clear_staged();
        proof {
            assert(self@.lobby.store == (PackStoreView {
                staged: Seq::empty(),
                ..store_after_reap(pre.lobby.store, pre.lobby.games, pre.clients)
            }));
            assert forall|holder: ListenerId, name: Seq<char>| #[trigger]
                self@.lobby.store.holds(holder, name) implies self@.lobby.has_game(holder)
                && self@.lobby.game(holder).has_pack(name) by {
                assert(mid.lobby.store.holds(holder, name));
            }
            assert forall|k: int, name: Seq<char>|
                0 <= k < self@.lobby.games.len() && (#[trigger] self@.lobby.games[k]).has_pack(name)
                implies #[trigger] self@.lobby.store.holds(self@.lobby.games[k].id, name) by {
                assert(mid.lobby.store.holds(mid.lobby.games[k].id, name));
            }
            assert forall|i: int| 0 <= i < self@.clients.clients.len()
                implies self@.lobby.is_listener(
                (#[trigger] self@.clients.clients[i]).1.listener,
            ) by {
                let bound = self@.clients.clients[i].1.listener;
                assert(pre.lobby.is_listener(bound));
                assert(pre.clients.is_bound(bound));
                assert(mid.lobby.is_listener(bound));
            }
        }
    }

    /// Handles a batch of client events in their order, then sweeps the hub.
    pub fn handle_messages(&mut self, events: &Vec<ClientEvent>)
        requires
            old(self).wf(),
        ensures
            final(self).wf(),
            final(self)@.lobby.id == old(self)@.lobby.id,
            exists|trace: Seq<NetworkView>| #[trigger]
                old(self)@.batch_handled(views_of(events@), trace, final(self)@),
    {
        let ghost pre = self@;
        let ghost mut trace: Seq<NetworkView> = seq![pre];
        let mut k: usize = 0;
        while k < events.len()
            invariant
                k <= events.len(),
                self.wf(),
                self@.lobby.id == pre.lobby.id,
                trace.len() == k + 1,
                trace[0] == pre,
                trace.last() == self@,
                forall|j: int|
                    0 <= j < k ==> (#[trigger] trace[j]).event_handled(
                        views_of(events@)[j],
                        trace[j + 1],
                    ),
            decreases events.len() - k,
        {
            self.handle_event(&events[k]);
            proof {
                let longer = trace.push(self@);
                assert forall|j: int| 0 <= j < k + 1 implies (#[trigger] longer[j]).event_handled(
                    views_of(events@)[j],
                    longer[j + 1],
                ) by {
                    if j < k {
                        assert(longer[j] == trace[j]);
                        assert(longer[j + 1] == trace[j + 1]);
                    }
                }
                trace = longer;
            }
            k += 1;
        }
        self.reap();
        proof {
            assert(pre.batch_handled(views_of(events@), trace, self@));
        }
    }
}

/// The store after every game of `games` let go of its packs, the last game first.
pub open spec fn store_after_close(store: PackStoreView, games: Seq<GameView>) -> PackStoreView
    decreases games.len(),
{
    if games.len() == 0 {
        store
    } else {
        store_after_close(
            PackStoreView { loaded: released(store.loaded, games.last().id), ..store },
            games.drop_last(),
        )
    }
}

/// The packs that `packet` asks the store for: those of the settings of a game to create,
/// or the one pack to add to a game.
pub open spec fn packs_asked(packet: ServerBoundView) -> Seq<Seq<char>> {
    match packet {
        ServerBoundView::CreateServer(settings) => settings.packs,
        ServerBoundView::UpdateSetting(GameSettingView::AddPack(name)) => seq![name],
        _ => Seq::empty(),
    }
}

/// The pack files to read before a game can load the packs called `names`: for each name
/// that the catalog lists and that is neither loaded nor staged, in the order of the
/// names, the name and whether the pack is official.
pub open spec fn files_to_read(
    store: PackStoreView,
    names: Seq<Seq<char>>,
) -> Seq<(Seq<char>, bool)>
    decreases names.len(),
{
    if names.len() == 0 {
        Seq::empty()
    } else {
        let rest = files_to_read(store, names.drop_last());
        let name = names.last();
        if store.load_error(name) == Some(PackError::Corrupt) {
            rest.push((name, store.catalog[first_index(store.catalog, name)].1.official))
        } else {
            rest
        }
    }
}

/// The pack files to read before the frame of `packets` is handled: those for the first
/// packet, then those for the second, and so on.
pub open spec fn files_for(store: PackStoreView, packets: Seq<WrappedServerBoundView>)
    -> Seq<(Seq<char>, bool)>
    decreases packets.len(),
{
    if packets.len() == 0 {
        Seq::empty()
    } else {
        files_for(store, packets.drop_last()) + files_to_read(
            store,
            packs_asked(packets.last().packet()),
        )
    }
}

impl NetworkHandler {
    /// Registers a game with `settings` as a listener, under a freshly minted id, and
    /// returns the id.
    pub fn add_listener(
        &mut self,
        settings: &GameSettings,
    ) -> (added: Result<ListenerId, AddGameError>)
        requires
            old(self).wf(),
        ensures
            final(self).wf(),
            final(self)@.clients == old(self)@.clients,
            final(self)@.stopped == old(self)@.stopped,
            match added {
                Ok(id) => {
                    &&& is_random_uuid(id)
                    &&& old(self)@.lobby.game_added(
                        settings@,
                        id,
                        Ok::<usize, AddGameError>(old(self)@.lobby.games.len() as usize),
                        final(self)@.lobby,
                    )
                    &&& final(self)@.lobby.is_listener(id)
                },
                Err(error) => exists|id: ListenerId|
                    is_random_uuid(id) && #[trigger] old(self)@.lobby.game_added(
                        settings@,
                        id,
                        Err::<usize, AddGameError>(error),
                        final(self)@.lobby,
                    ),
            },
    {
        let ghost pre = self@;
        let id = mint_id();
        let added = self.lobby.add_game(settings, id);
        proof {
            assert forall|i: int| 0 <= i < self@.clients.clients.len()
                implies self@.lobby.is_listener(
                (#[trigger] self@.clients.clients[i]).1.listener,
            ) by {
                assert(pre.lobby.is_listener(pre.clients.clients[i].1.listener));
            }
        }
        match added {
            Ok(_) => Ok(id),
            Err(error) => {
                assert(pre.lobby.game_added(
                    settings@,
                    id,
                    Err::<usize, AddGameError>(error),
                    self@.lobby,
                ));
                Err(error)
            },
        }
    }

    /// Stages the contents of a pack file that was just read, for the next events.
    pub fn stage_pack(&mut self, pack: Pack) -> (staged: bool)
        requires
            old(self).wf(),
        ensures
            final(self).wf(),
            staged == pack@.picks_in_range(),
            final(self)@ == (NetworkView {
                lobby: LobbyView {
                    store: PackStoreView {
                        staged: if staged {
                            old(self)@.lobby.store.staged.push(pack@)
                        } else {
                            old(self)@.lobby.store.staged
                        },
                        ..old(self)@.lobby.store
                    },
                    ..old(self)@.lobby
                },
                ..old(self)@
            }),
    {
        let ghost pre = self@;
        let staged = self.lobby.pack_store.stage(pack);
        proof {
            assert forall|holder: ListenerId, name: Seq<char>| #[trigger]
                self@.lobby.store.holds(holder, name) implies self@.lobby.has_game(holder)
                && self@.lobby.game(holder).has_pack(name) by {
                assert(pre.lobby.store.holds(holder, name));
            }
            assert forall|k: int, name: Seq<char>|
                0 <= k < self@.lobby.games.len() && (#[trigger] self@.lobby.games[k]).has_pack(name)
                implies #[trigger] self@.lobby.store.holds(self@.lobby.games[k].id, name) by {
                assert(pre.lobby.store.holds(pre.lobby.games[k].id, name));
            }
        }
        staged
    }

    /// The pack files to read and stage before the frame of `packets` is handled, each
    /// with its name and whether the pack is official.
    pub fn packs_to_read(
        &self,
        packets: &Vec<WrappedServerBoundPacket>,
    ) -> (files: Vec<(String, bool)>)
        ensures
            views_of(files@) == files_for(self@.lobby.store, views_of(packets@)),
    {
        let ghost store = self@.lobby.store;
        let ghost sent = views_of(packets@);
        let mut files: Vec<(String, bool)> = Vec::new();
        let mut k: usize = 0;
        assert(views_of(files@) =~= files_for(store, sent.take(0)));
        while k < packets.len()
            invariant
                k <= packets.len(),
                store == self@.lobby.store,
                sent == views_of(packets@),
                views_of(files@) == files_for(store, sent.take(k as int)),
            decreases packets.len() - k,
        {
            let ghost before = views_of(files@);
            let ghost asked = packs_asked(sent[k as int].packet());
            proof {
                assert(sent.take(k + 1).drop_last() =~= sent.take(k as int));
                assert(sent.take(k + 1).last() == sent[k as int]);
            }
            match packets[k].packet() {
                ServerBoundPacket::CreateServer(settings) => {
                    let mut n: usize = 0;
                    assert(views_of(files@) =~= before + files_to_read(store, asked.take(0)));
                    while n < settings.packs.len()
                        invariant
                            n <= settings.packs.len(),
                            store == self@.lobby.store,
                            asked == views_of(settings.packs@),
                            views_of(files@) == before + files_to_read(store, asked.take(n as int)),
                        decreases settings.packs.len() - n,
                    {
                        let ghost so_far = views_of(files@);
                        proof {
                            assert(asked.take(n + 1).drop_last() =~= asked.take(n as int));
                            assert(asked.take(n + 1).last() == asked[n as int]);
                        }
                        match self.lobby.pack_store.needs_read(settings.packs[n].as_str()) {
                            Some(official) => {
                                files.push((settings.packs[n].clone(), official));
                                assert(views_of(files@) =~= so_far.push(files@.last()@));
                            },
                            None => {},
                        }
                        assert(views_of(files@) =~= before + files_to_read(
                            store,
                            asked.take(n + 1),
                        ));
                        n += 1;
                    }
                    assert(asked.take(settings.packs.len() as int) =~= asked);
                },
                ServerBoundPacket::UpdateSetting(GameSetting::AddPack(name)) => {
                    proof {
                        assert(asked.drop_last() =~= Seq::<Seq<char>>::empty());
                        assert(files_to_read(store, asked.drop_last()) =~= Seq::empty());
                    }
                    match self.lobby.pack_store.needs_read(name.as_str()) {
                        Some(official) => {
                            files.push((name.clone(), official));
                            assert(views_of(files@) =~= before.push(files@.last()@));
                        },
                        None => {},
                    }
                    assert(views_of(files@) =~= before + files_to_read(store, asked));
                },
                _ => {
                    assert(views_of(files@) =~= before + files_to_read(store, asked));
                },
            }
            k += 1;
        }
        assert(sent.take(packets.len() as int) =~= sent);
        files
    }

    /// Hands over the frames that wait to be written, oldest first, and empties the
    /// outbox.
    pub fn take_outbox(&mut self) -> (frames: Vec<Frame>)
        requires
            old(self).wf(),
        ensures
            final(self).wf(),
            views_of(frames@) == old(self)@.clients.outbox,
            final(self)@.clients.outbox.len() == 0,
            final(self)@.clients.clients == old(self)@.clients.clients,
            final(self)@.lobby == old(self)@.lobby,
            final(self)@.stopped == old(self)@.stopped,
    {
        self.client_handler.take_outbox()
    }

    /// Stops the hub: forgets every client and drops every game, which lets go of its
    /// packs. Returns the clients that were connected, whose sockets are to be closed. A
    /// hub that was stopped before is left as it is, and nothing is returned.
    pub fn shutdown(&mut self) -> (closed: Vec<ClientId>)
        requires
            old(self).wf(),
        ensures
            final(self).wf(),
            final(self)@.stopped,
            old(self)@.stopped ==> closed@.len() == 0 && final(self)@ == old(self)@,
            !old(self)@.stopped ==> {
                &&& closed@ == Seq::new(
                    old(self)@.clients.clients.len(),
                    |i: int| old(self)@.clients.clients[i].0,
                )
                &&& final(self)@.clients.clients.len() == 0
                &&& final(self)@.clients.outbox == old(self)@.clients.outbox
                &&& final(self)@.lobby == (LobbyView {
                    store: store_after_close(old(self)@.lobby.store, old(self)@.lobby.games),
                    games: Seq::empty(),
                    handles: Seq::empty(),
                    ..old(self)@.lobby
                })
            },
    {
        if self.stopped {
            return Vec::new();
        }
        let ghost pre = self@;
        self.stopped = true;
        let closed = self.client_handler.client_ids();
        self.client_handler.client_list = crate::vec_map::VecMap::new();
        while self.lobby.games.len() > 0
            invariant
                self.lobby.wf(),
                self.client_handler.wf(),
                self@.clients.clients.len() == 0,
                self@.clients.outbox == pre.clients.outbox,
                self@.stopped,
                self@.lobby.id == pre.lobby.id,
                store_after_close(self@.lobby.store, self@.lobby.games) == store_after_close(
                    pre.lobby.store,
                    pre.lobby.games,
                ),
            decreases self.lobby.games.len(),
        {
            let last = self.lobby.games.len() - 1;
            let ghost before = self@.lobby;
            self.lobby.remove_game(last);
            proof {
                assert(self@.lobby.games =~= before.games.drop_last());
            }
        }
        proof {
            assert(self@.lobby.games =~= Seq::empty());
            if self@.lobby.handles.len() > 0 {
                assert(self@.lobby.has_game(self@.lobby.handles[0]));
            }
            assert(self@.lobby.handles =~= Seq::empty());
        }
        closed
    }
}

/// Every frame of a connected client is acknowledged at once: the last frame that
/// handling it queues is for the sender, and holds exactly one `Ack` for each packet that
/// came wrapped with an id, in the order of arrival and under the packet's id.
pub proof fn lemma_frame_is_acknowledged(
    hub: NetworkView,
    client_id: ClientId,
    packets: Seq<WrappedServerBoundView>,
    trace: Seq<NetworkView>,
    responses: Seq<PacketResponseView>,
    post: NetworkView,
)
    requires
        hub.clients.has_client(client_id),
        hub.message_handled(client_id, packets, trace, responses, post),
    ensures
        post.clients.outbox.len() > 0,
        post.clients.outbox.last().to == client_id,
        post.clients.outbox.last().packets.len() == wrapped_ids(packets).len(),
        forall|n: int|
            0 <= n < wrapped_ids(packets).len()
                ==> (#[trigger] post.clients.outbox.last().packets[n]) is Ack
                && post.clients.outbox.last().packets[n]->Ack_packet_id == wrapped_ids(packets)[n],
{
    lemma_acks_match_wrapped(packets, responses);
}

} // verus!
