//! The lobby: the listener that every client is bound to first. It owns the pack store and
//! the games, and creates and joins games on request.
//!
//! The lobby keeps two things apart. The games themselves are the registered listeners:
//! a game stays registered until the hub's sweep drops it, which it does once the game is
//! over and deserted and no client is bound to it. Beside them the lobby holds a handle
//! on each game that it lists to clients. The handles are swept whenever a list of games
//! is sent: the handle on a game that is over and deserted is dropped then, while the
//! game stays registered and its packs stay loaded.

use vstd::prelude::*;
use crate::clients::{ClientHandler, ClientHandlerView};
use crate::game::packets::{
    lemma_connect_keeps, lemma_disconnect_keeps, lemma_packet_holds, lemma_packet_keeps,
};
use crate::game::{Game, GameView};
use crate::ids::{is_random_uuid, mint_id, ClientId, ListenerId};
use crate::pack_store::{
    drop_holder, lemma_loaded_is_held, lemma_nothing_held, lemma_released_holds, lemma_without,
    lemma_without_distinct, loads, pack_called, released, without, PackError, PackStore,
    PackStoreView, DEFAULT_PACK,
};
use crate::protocol::{
    frames_since, lemma_queued, only_grew, ClientBoundPacket, ClientBoundView, Frame, FrameView,
    GameSettings, GameSettingsView, PacketResponse, PacketResponseView, ServerBoundPacket,
    ServerBoundView, ServerInfo, ServerInfoView,
};
use crate::seqs::views_of;
use crate::vec_map::{
    distinct_keys, first_index, has_key, lemma_first_index, lemma_first_index_at_most,
    lemma_first_index_unique, lemma_push_new_key, lemma_remove_entry, lemma_update_value,
};

verus! {

/// The games, each under its id.
pub open spec fn keyed(games: Seq<GameView>) -> Seq<(ListenerId, GameView)> {
    Seq::new(games.len(), |i: int| (games[i].id, games[i]))
}

/// What the lobby lists of the game that it holds `handle` on: its id, the name of its
/// host, the number of its players and its player limit.
pub open spec fn server_info(handle: ListenerId, game: GameView) -> ServerInfoView {
    ServerInfoView {
        id: handle,
        host_name: game.host_name(),
        num_players: game.players.len() as usize,
        max_players: game.max_players,
    }
}

/// The handles that a sweep of the lobby keeps: those of `handles` whose game among
/// `games` is not over and deserted, in their order.
pub open spec fn kept_handles(handles: Seq<ListenerId>, games: Seq<GameView>) -> Seq<ListenerId>
    decreases handles.len(),
{
    if handles.len() == 0 {
        handles
    } else {
        let rest = kept_handles(handles.drop_last(), games);
        if games[first_index(keyed(games), handles.last())].is_terminated() {
            rest
        } else {
            rest.push(handles.last())
        }
    }
}

/// What a sweep keeps: the handles that it keeps are handles of before whose game is not
/// over and deserted, every such handle is kept, and none is kept twice that was not
/// held twice.
pub proof fn lemma_kept_handles(handles: Seq<ListenerId>, games: Seq<GameView>)
    ensures
        kept_handles(handles, games).len() <= handles.len(),
        forall|k: int|
            0 <= k < kept_handles(handles, games).len() ==> handles.contains(
                #[trigger] kept_handles(handles, games)[k],
            ) && !games[first_index(keyed(games), kept_handles(handles, games)[k])].is_terminated(),
        forall|i: int|
            0 <= i < handles.len() && !games[first_index(
                keyed(games),
                #[trigger] handles[i],
            )].is_terminated() ==> kept_handles(handles, games).contains(handles[i]),
        handles.no_duplicates() ==> kept_handles(handles, games).no_duplicates(),
    decreases handles.len(),
{
    if handles.len() > 0 {
        let front = handles.drop_last();
        let kept = kept_handles(handles, games);
        let rest = kept_handles(front, games);
        lemma_kept_handles(front, games);
        assert forall|k: int| 0 <= k < kept.len() implies handles.contains(#[trigger] kept[k])
            && !games[first_index(keyed(games), kept[k])].is_terminated() by {
            if k < rest.len() {
                assert(kept[k] == rest[k]);
                assert(front.contains(rest[k]));
                let j = choose|j: int| 0 <= j < front.len() && front[j] == rest[k];
                assert(handles[j] == kept[k]);
            } else {
                assert(handles[handles.len() - 1] == kept[k]);
            }
        }
        assert forall|i: int|
            0 <= i < handles.len() && !games[first_index(
                keyed(games),
                #[trigger] handles[i],
            )].is_terminated() implies kept.contains(handles[i]) by {
            if i < front.len() {
                assert(front[i] == handles[i]);
                assert(rest.contains(front[i]));
                let k = choose|k: int| 0 <= k < rest.len() && rest[k] == front[i];
                assert(kept[k] == handles[i]);
            } else {
                assert(kept[kept.len() - 1] == handles[i]);
            }
        }
        if handles.no_duplicates() {
            assert(front.no_duplicates());
            assert forall|a: int, b: int|
                0 <= a < kept.len() && 0 <= b < kept.len() && a != b implies kept[a]
                != kept[b] by {
                if a < rest.len() && b < rest.len() {
                    assert(rest[a] != rest[b]);
                } else {
                    let low = if a < b { a } else { b };
                    assert(kept[low] == rest[low]);
                    assert(front.contains(rest[low]));
                    let j = choose|j: int| 0 <= j < front.len() && front[j] == rest[low];
                    assert(handles[j] != handles[handles.len() - 1]);
                }
            }
        }
    }
}

/// Why a game cannot be created with `settings`, or nothing where it can: no pack is
/// named, there are no points to win, or the player limit is under two.
pub open spec fn settings_error(settings: GameSettingsView) -> Option<Seq<char>> {
    if settings.packs.len() == 0 {
        Some("Packs cannot be empty"@)
    } else if settings.points_to_win == 0 {
        Some("Point to win has to be at least 1"@)
    } else if settings.max_players matches Some(limit) && limit < 2 {
        Some("Max players needs to be at least 2"@)
    } else {
        None
    }
}

/// What a [`Lobby`] holds.
pub struct LobbyView {
    pub id: ListenerId,
    pub store: PackStoreView,
    /// The games that are registered as listeners, in the order in which they were
    /// created.
    pub games: Seq<GameView>,
    /// The lobby's handles on the games that it lists to clients, in the order in which
    /// the games were created.
    pub handles: Seq<ListenerId>,
}

impl LobbyView {
    /// Whether the lobby has a game `id`.
    pub open spec fn has_game(self, id: ListenerId) -> bool {
        has_key(keyed(self.games), id)
    }

    /// The position of the game `id` among the games.
    pub open spec fn game_index(self, id: ListenerId) -> int {
        first_index(keyed(self.games), id)
    }

    /// The game `id`.
    pub open spec fn game(self, id: ListenerId) -> GameView {
        self.games[self.game_index(id)]
    }

    /// Whether `id` names a listener: the lobby itself, or one of its games.
    pub open spec fn is_listener(self, id: ListenerId) -> bool {
        id == self.id || self.has_game(id)
    }

    /// Whether whoever holds a loaded pack is a game of the lobby that has the pack among
    /// its packs.
    pub open spec fn held_by_games(self) -> bool {
        forall|holder: ListenerId, name: Seq<char>| #[trigger]
            self.store.holds(holder, name) ==> self.has_game(holder) && self.game(
                holder,
            ).has_pack(name)
    }

    /// Whether every game holds each of its packs, which are therefore loaded.
    pub open spec fn games_hold_packs(self) -> bool {
        forall|i: int, name: Seq<char>|
            0 <= i < self.games.len() && (#[trigger] self.games[i]).has_pack(name)
                ==> #[trigger] self.store.holds(self.games[i].id, name)
    }

    /// The invariant of the lobby: the store and the games are in order, the games have
    /// ids of their own, a pack is held by exactly the games that use it, and every
    /// handle is the handle of a registered game, held once.
    pub open spec fn wf(self) -> bool {
        &&& self.store.wf()
        &&& distinct_keys(keyed(self.games))
        &&& forall|i: int|
            0 <= i < self.games.len() ==> (#[trigger] self.games[i]).wf() && self.games[i].id
                != self.id
        &&& self.held_by_games()
        &&& self.games_hold_packs()
        &&& self.handles.no_duplicates()
        &&& forall|k: int| 0 <= k < self.handles.len() ==> self.has_game(#[trigger] self.handles[k])
    }

    /// The lobby after a sweep of its handles: the handles of the games that are over
    /// and deserted are dropped, the others stay in their order. The registered games
    /// and the store are as they were.
    pub open spec fn swept(self) -> LobbyView {
        LobbyView { handles: kept_handles(self.handles, self.games), ..self }
    }

    /// The list of games as clients are sent it: one entry for each handle, in the order
    /// of the handles.
    pub open spec fn servers(self) -> Seq<ServerInfoView> {
        Seq::new(
            self.handles.len(),
            |k: int| server_info(self.handles[k], self.game(self.handles[k])),
        )
    }

    /// The two frames that greet a client in the lobby: the list of games, then the
    /// catalog of packs.
    pub open spec fn welcome_frames(self, client_id: ClientId) -> Seq<FrameView> {
        seq![self.server_list_frame(client_id), self.card_packs_frame(client_id)]
    }

    /// The frame that lists the games to a client.
    pub open spec fn server_list_frame(self, client_id: ClientId) -> FrameView {
        FrameView {
            to: client_id,
            packets: seq![ClientBoundView::ServerList { servers: self.servers() }],
        }
    }

    /// The frame that lists the catalog of packs to a client.
    pub open spec fn card_packs_frame(self, client_id: ClientId) -> FrameView {
        FrameView {
            to: client_id,
            packets: seq![ClientBoundView::CardPacks(self.store.catalog_list())],
        }
    }
}

/// Whether every connected client is bound to a listener: to the lobby, or to one of its
/// games.
pub open spec fn all_bound(lobby: LobbyView, clients: ClientHandlerView) -> bool {
    forall|i: int|
        0 <= i < clients.clients.len()
            ==> lobby.is_listener((#[trigger] clients.clients[i]).1.listener)
}

/// Every pack that is loaded, but for the default pack, is among the packs of a game of
/// the lobby.
pub proof fn lemma_loaded_pack_is_used(lobby: LobbyView, name: Seq<char>)
    requires
        lobby.wf(),
        has_key(lobby.store.loaded, name),
        name != DEFAULT_PACK@,
    ensures
        exists|i: int| 0 <= i < lobby.games.len() && (#[trigger] lobby.games[i]).has_pack(name),
{
    lemma_loaded_is_held(lobby.store, name);
    let holder = choose|holder: ListenerId| #[trigger] lobby.store.holds(holder, name);
    lemma_first_index(keyed(lobby.games), holder);
    let i = lobby.game_index(holder);
    assert(lobby.games[i].has_pack(name));
}

/// Every pack among the packs of a game of the lobby is loaded.
pub proof fn lemma_used_pack_is_loaded(lobby: LobbyView, i: int, name: Seq<char>)
    requires
        lobby.wf(),
        0 <= i < lobby.games.len(),
        lobby.games[i].has_pack(name),
    ensures
        has_key(lobby.store.loaded, name),
{
    assert(lobby.store.holds(lobby.games[i].id, name));
}

/// The lobby.
pub struct Lobby {
    pub id: ListenerId,
    pub pack_store: PackStore,
    /// The games that are registered as listeners.
    pub games: Vec<Game>,
    /// The handles on the games that the lobby lists to clients.
    pub handles: Vec<ListenerId>,
}

impl View for Lobby {
    type V = LobbyView;

    open spec fn view(&self) -> LobbyView {
        LobbyView {
            id: self.id,
            store: self.pack_store@,
            games: views_of(self.games@),
            handles: self.handles@,
        }
    }
}

impl Lobby {
    /// The invariant of the lobby: the store and the games are in order, the games have
    /// ids of their own, a pack is held by exactly the games that use it, and every
    /// handle is the handle of a registered game, held once.
    pub open spec fn wf(&self) -> bool {
        self@.wf()
    }

    /// A lobby without games, over a store in which nothing is held.
    pub fn new(id: ListenerId, pack_store: PackStore) -> (lobby: Self)
        requires
            pack_store.wf(),
            pack_store@.nothing_held(),
        ensures
            lobby.wf(),
            lobby@ == (LobbyView {
                id,
                store: pack_store@,
                games: Seq::empty(),
                handles: Seq::empty(),
            }),
    {
        proof {
            lemma_nothing_held(pack_store@);
        }
        let lobby = Lobby { id, pack_store, games: Vec::new(), handles: Vec::new() };
        assert(lobby@.games =~= Seq::empty());
        assert(lobby@.handles =~= Seq::empty());
        lobby
    }

    /// The lobby never terminates.
    pub fn is_terminated(&self) -> (terminated: bool)
        ensures
            !terminated,
    {
        false
    }

    /// The position of the game `id` among the games.
    pub fn find_game(&self, id: ListenerId) -> (found: Option<usize>)
        ensures
            found is Some <==> self@.has_game(id),
            found matches Some(i) ==> i == self@.game_index(id) && i < self@.games.len()
                && self@.games[i as int].id == id,
    {
        let ghost entries = keyed(self@.games);
        let mut i: usize = 0;
        while i < self.games.len()
            invariant
                i <= self.games.len(),
                entries == keyed(self@.games),
                forall|j: int| 0 <= j < i ==> (#[trigger] entries[j]).0 != id,
            decreases self.games.len() - i,
        {
            if self.games[i].id == id {
                proof {
                    assert(entries[i as int].0 == id);
                    lemma_first_index_at_most(entries, id, i as int);
                    lemma_first_index(entries, id);
                    if first_index(entries, id) < i {
                        assert(entries[first_index(entries, id)].0 != id);
                    }
                }
                return Some(i);
            }
            assert(entries[i as int].0 != id);
            i += 1;
        }
        proof {
            lemma_first_index(entries, id);
            if first_index(entries, id) < entries.len() {
                assert(entries[first_index(entries, id)].0 != id);
            }
        }
        None
    }

    /// Whether `id` names a listener: the lobby itself, or one of its games.
    pub fn valid_listener(&self, id: ListenerId) -> (valid: bool)
        ensures
            valid == self@.is_listener(id),
    {
        id == self.id || self.find_game(id).is_some()
    }

    /// Sweeps the lobby's handles: drops the handle of every game that is over and
    /// deserted. The registered games and the store are not touched.
    pub fn sweep(&mut self)
        requires
            old(self).wf(),
        ensures
            final(self).wf(),
            final(self)@ == old(self)@.swept(),
            forall|k: int|
                0 <= k < final(self)@.handles.len() ==> !final(self)@.game(
                    #[trigger] final(self)@.handles[k],
                ).is_terminated(),
    {
        let ghost pre = self@;
        let mut kept: Vec<ListenerId> = Vec::new();
        let mut i: usize = 0;
        while i < self.handles.len()
            invariant
                i <= self.handles.len(),
                self@ == pre,
                pre.wf(),
                kept@ == kept_handles(pre.handles.take(i as int), pre.games),
            decreases self.handles.len() - i,
        {
            let handle = self.handles[i];
            proof {
                assert(pre.handles.take(i + 1).drop_last() =~= pre.handles.take(i as int));
                assert(pre.handles.take(i + 1).last() == handle);
                assert(pre.has_game(pre.handles[i as int]));
            }
            let terminated = match self.find_game(handle) {
                Some(seat) => self.games[seat].is_terminated(),
                None => true,
            };
            if !terminated {
                kept.push(handle);
            }
            i += 1;
        }
        proof {
            assert(pre.handles.take(self.handles.len() as int) =~= pre.handles);
            lemma_kept_handles(pre.handles, pre.games);
        }
        self.handles = kept;
        proof {
            assert forall|k: int| 0 <= k < self@.handles.len() implies self@.has_game(
                #[trigger] self@.handles[k],
            ) && !self@.game(self@.handles[k]).is_terminated() by {
                let handle = self@.handles[k];
                assert(pre.handles.contains(handle));
                let w = choose|w: int| 0 <= w < pre.handles.len() && pre.handles[w] == handle;
                assert(pre.has_game(pre.handles[w]));
            }
        }
    }

    /// The games that the lobby has handles on, as clients are sent them: one entry for
    /// each handle, in the order of the handles.
    fn list_games(&self) -> (servers: Vec<ServerInfo>)
        requires
            self.wf(),
        ensures
            views_of(servers@) == self@.servers(),
    {
        let mut servers: Vec<ServerInfo> = Vec::new();
        let mut i: usize = 0;
        while i < self.handles.len()
            invariant
                i <= self.handles.len(),
                self.wf(),
                views_of(servers@) == self@.servers().take(i as int),
            decreases self.handles.len() - i,
        {
            assert(self@.has_game(self@.handles[i as int]));
            match self.find_game(self.handles[i]) {
                Some(seat) => {
                    let game = &self.games[seat];
                    let ghost before = views_of(servers@);
                    servers.push(
                        ServerInfo {
                            id: self.handles[i],
                            host_name: game.host_name(),
                            num_players: game.num_players(),
                            max_players: game.max_players,
                        },
                    );
                    assert(views_of(servers@) =~= before.push(servers@.last()@));
                    assert(views_of(servers@) =~= self@.servers().take(i + 1));
                },
                None => {},
            }
            i += 1;
        }
        assert(self@.servers().take(self.handles.len() as int) =~= self@.servers());
        servers
    }

    /// The games that are listed to clients. The lobby's handles are swept first, so
    /// that no game is listed that is over and deserted.
    pub fn server_list(&mut self) -> (servers: Vec<ServerInfo>)
        requires
            old(self).wf(),
        ensures
            final(self).wf(),
            final(self)@ == old(self)@.swept(),
            forall|k: int|
                0 <= k < final(self)@.handles.len() ==> !final(self)@.game(
                    #[trigger] final(self)@.handles[k],
                ).is_terminated(),
            views_of(servers@) == final(self)@.servers(),
    {
        self.sweep();
        self.list_games()
    }

    /// Sweeps the lobby's handles, then queues the list of games for a client. Returns
    /// whether the client is connected; for a client that is not, nothing is queued.
    pub fn send_server_list(
        &mut self,
        client_handler: &mut ClientHandler,
        client_id: ClientId,
    ) -> (sent: bool)
        requires
            old(self).wf(),
            old(client_handler).wf(),
        ensures
            final(self).wf(),
            final(self)@ == old(self)@.swept(),
            forall|k: int|
                0 <= k < final(self)@.handles.len() ==> !final(self)@.game(
                    #[trigger] final(self)@.handles[k],
                ).is_terminated(),
            final(client_handler).wf(),
            sent == old(client_handler)@.has_client(client_id),
            final(client_handler)@.clients == old(client_handler)@.clients,
            final(client_handler)@.outbox == if sent {
                old(client_handler)@.outbox.push(final(self)@.server_list_frame(client_id))
            } else {
                old(client_handler)@.outbox
            },
    {
        let servers = self.server_list();
        client_handler.send_packet(client_id, ClientBoundPacket::ServerList { servers })
    }

    /// Queues the catalog of packs for a client. Returns whether the client is connected.
    pub fn send_card_packs(&self, client_handler: &mut ClientHandler, client_id: ClientId)
        -> (sent: bool)
        requires
            old(client_handler).wf(),
        ensures
            final(client_handler).wf(),
            sent == old(client_handler)@.has_client(client_id),
            final(client_handler)@.clients == old(client_handler)@.clients,
            final(client_handler)@.outbox == if sent {
                old(client_handler)@.outbox.push(self@.card_packs_frame(client_id))
            } else {
                old(client_handler)@.outbox
            },
    {
        client_handler.send_packet(
            client_id,
            ClientBoundPacket::CardPacks(self.pack_store.catalog_view()),
        )
    }

    /// Greets a client that was bound to the lobby: sweeps the lobby's handles, so that
    /// the handle of every game that is over and deserted is dropped, then queues the
    /// list of the games that are left and the catalog of packs for the client. For a
    /// client that is not connected nothing is queued.
    pub fn client_connected(&mut self, client_handler: &mut ClientHandler, client_id: ClientId)
        requires
            old(self).wf(),
            old(client_handler).wf(),
        ensures
            final(self).wf(),
            final(self)@ == old(self)@.swept(),
            forall|k: int|
                0 <= k < final(self)@.handles.len() ==> !final(self)@.game(
                    #[trigger] final(self)@.handles[k],
                ).is_terminated(),
            final(client_handler).wf(),
            final(client_handler)@.clients == old(client_handler)@.clients,
            final(client_handler)@.outbox == old(client_handler)@.outbox + if old(
                client_handler,
            )@.has_client(client_id) {
                final(self)@.welcome_frames(client_id)
            } else {
                Seq::empty()
            },
    {
        self.send_server_list(client_handler, client_id);
        self.send_card_packs(client_handler, client_id);
        assert(client_handler@.outbox =~= old(client_handler)@.outbox + if old(
            client_handler,
        )@.has_client(client_id) {
            self@.welcome_frames(client_id)
        } else {
            Seq::empty()
        });
    }

    /// A client that leaves the lobby leaves nothing behind.
    pub fn client_disconnected(&self, client_id: ClientId) {
    }
}

/// A game that changed in its place, under its id, leaves the lobby in order, provided
/// the game and the store are in order, the game has every pack that it holds, and nobody
/// else holds a pack that they did not hold before.
pub proof fn lemma_game_changed(lobby: LobbyView, i: int, game: GameView, store: PackStoreView)
    requires
        lobby.wf(),
        0 <= i < lobby.games.len(),
        game.wf(),
        game.id == lobby.games[i].id,
        store.wf(),
        forall|name: Seq<char>| #[trigger] store.holds(game.id, name) <==> game.has_pack(name),
        forall|other: ListenerId, name: Seq<char>|
            other != game.id ==> (#[trigger] store.holds(other, name) <==> lobby.store.holds(
                other,
                name,
            )),
    ensures
        (LobbyView { store, games: lobby.games.update(i, game), ..lobby }).wf(),
        forall|id: ListenerId| #[trigger]
            (LobbyView { store, games: lobby.games.update(i, game), ..lobby }).game_index(id)
                == lobby.game_index(id),
{
    let after = LobbyView { store, games: lobby.games.update(i, game), ..lobby };
    assert(keyed(after.games) =~= keyed(lobby.games).update(i, (keyed(lobby.games)[i].0, game)));
    lemma_update_value(keyed(lobby.games), i, game);
    lemma_first_index_unique(keyed(lobby.games), game.id, i);
    assert forall|holder: ListenerId, name: Seq<char>| #[trigger]
        after.store.holds(holder, name) implies after.has_game(holder) && after.game(
        holder,
    ).has_pack(name) by {
        if holder != game.id {
            assert(lobby.store.holds(holder, name));
            lemma_first_index(keyed(lobby.games), holder);
            assert(lobby.game_index(holder) != i);
        }
    }
    assert forall|k: int| 0 <= k < after.games.len() implies (#[trigger] after.games[k]).wf()
        && after.games[k].id != after.id by {
        if k != i {
            assert(after.games[k] == lobby.games[k]);
        } else {
            assert(lobby.games[i].id != lobby.id);
        }
    }
    assert forall|k: int, name: Seq<char>|
        0 <= k < after.games.len() && (#[trigger] after.games[k]).has_pack(name) implies #[trigger]
        after.store.holds(after.games[k].id, name) by {
        if k != i {
            assert(after.games[k] == lobby.games[k]);
            assert(keyed(lobby.games)[k].0 != keyed(lobby.games)[i].0);
            assert(lobby.store.holds(lobby.games[k].id, name));
        }
    }
    assert forall|k: int| 0 <= k < after.handles.len() implies after.has_game(
        #[trigger] after.handles[k],
    ) by {
        assert(lobby.has_game(lobby.handles[k]));
        assert(after.game_index(after.handles[k]) == lobby.game_index(lobby.handles[k]));
    }
}

impl Lobby {
    /// Hands one packet to the game at position `index`, and returns the game's verdict.
    pub fn game_packet(
        &mut self,
        out: &mut Vec<Frame>,
        index: usize,
        packet: &ServerBoundPacket,
        sender: ClientId,
    ) -> (response: PacketResponse)
        requires
            old(self).wf(),
            index < old(self)@.games.len(),
        ensures
            final(self).wf(),
            only_grew(views_of(old(out)@), views_of(final(out)@)),
            final(self)@.id == old(self)@.id,
            final(self)@.handles == old(self)@.handles,
            final(self)@.games
                == old(self)@.games.update(index as int, final(self)@.games[index as int]),
            old(self)@.games[index as int].packet_handled(
                old(self)@.store,
                packet@,
                sender,
                response@,
                final(self)@.games[index as int],
                final(self)@.store,
                frames_since(views_of(old(out)@), views_of(final(out)@)),
            ),
            forall|id: ListenerId| #[trigger] final(self)@.game_index(id)
                == old(self)@.game_index(id),
    {
        let ghost pre = self@;
        let response = self.games[index].handle_packet(out, &mut self.pack_store, packet, sender);
        proof {
            let game = self.games@[index as int]@;
            let frames = frames_since(views_of(old(out)@), views_of(out@));
            assert(self@.games =~= pre.games.update(index as int, game));
            lemma_first_index_unique(keyed(pre.games), pre.games[index as int].id, index as int);
            assert forall|name: Seq<char>| #[trigger]
                pre.store.holds(pre.games[index as int].id, name)
                    <==> pre.games[index as int].has_pack(
                name,
            ) by {}
            lemma_packet_holds(
                pre.games[index as int],
                pre.store,
                packet@,
                sender,
                response@,
                game,
                self@.store,
                frames,
            );
            lemma_packet_keeps(
                pre.games[index as int],
                pre.store,
                packet@,
                sender,
                response@,
                game,
                self@.store,
                frames,
            );
            lemma_game_changed(pre, index as int, game, self@.store);
        }
        response
    }

    /// Tells the game at position `index` that a client was bound to it.
    pub fn game_connected(&mut self, out: &mut Vec<Frame>, index: usize, client_id: ClientId)
        requires
            old(self).wf(),
            index < old(self)@.games.len(),
        ensures
            final(self).wf(),
            only_grew(views_of(old(out)@), views_of(final(out)@)),
            final(self)@.id == old(self)@.id,
            final(self)@.store == old(self)@.store,
            final(self)@.handles == old(self)@.handles,
            final(self)@.games
                == old(self)@.games.update(index as int, final(self)@.games[index as int]),
            old(self)@.games[index as int].connect_handled(
                client_id,
                final(self)@.games[index as int],
                frames_since(views_of(old(out)@), views_of(final(out)@)),
            ),
            forall|id: ListenerId| #[trigger] final(self)@.game_index(id)
                == old(self)@.game_index(id),
    {
        let ghost pre = self@;
        self.games[index].client_connected(out, client_id);
        proof {
            let game = self.games@[index as int]@;
            let frames = frames_since(views_of(old(out)@), views_of(out@));
            assert(self@.games =~= pre.games.update(index as int, game));
            lemma_first_index_unique(keyed(pre.games), pre.games[index as int].id, index as int);
            lemma_connect_keeps(pre.games[index as int], client_id, game, frames);
            assert forall|name: Seq<char>| #[trigger]
                pre.store.holds(game.id, name) <==> game.has_pack(name) by {
                if pre.store.holds(game.id, name) {
                    assert(pre.games[index as int].has_pack(name));
                }
                if game.has_pack(name) {
                    assert(pre.games[index as int].has_pack(name));
                }
            }
            lemma_game_changed(pre, index as int, game, pre.store);
        }
    }

    /// Tells the game at position `index` that a client left it.
    pub fn game_disconnected(&mut self, out: &mut Vec<Frame>, index: usize, client_id: ClientId)
        requires
            old(self).wf(),
            index < old(self)@.games.len(),
        ensures
            final(self).wf(),
            only_grew(views_of(old(out)@), views_of(final(out)@)),
            final(self)@.id == old(self)@.id,
            final(self)@.store == old(self)@.store,
            final(self)@.handles == old(self)@.handles,
            final(self)@.games
                == old(self)@.games.update(index as int, final(self)@.games[index as int]),
            old(self)@.games[index as int].disconnect_handled(
                client_id,
                final(self)@.games[index as int],
                frames_since(views_of(old(out)@), views_of(final(out)@)),
            ),
            forall|id: ListenerId| #[trigger] final(self)@.game_index(id)
                == old(self)@.game_index(id),
    {
        let ghost pre = self@;
        self.games[index].client_disconnected(out, client_id);
        proof {
            let game = self.games@[index as int]@;
            let frames = frames_since(views_of(old(out)@), views_of(out@));
            assert(self@.games =~= pre.games.update(index as int, game));
            lemma_first_index_unique(keyed(pre.games), pre.games[index as int].id, index as int);
            lemma_disconnect_keeps(pre.games[index as int], client_id, game, frames);
            assert forall|name: Seq<char>| #[trigger]
                pre.store.holds(game.id, name) <==> game.has_pack(name) by {
                if pre.store.holds(game.id, name) {
                    assert(pre.games[index as int].has_pack(name));
                }
                if game.has_pack(name) {
                    assert(pre.games[index as int].has_pack(name));
                }
            }
            lemma_game_changed(pre, index as int, game, pre.store);
        }
    }
}

/// Why a game could not be added to the lobby.
#[derive(Clone, Copy, PartialEq, Eq, Structural, Debug)]
pub enum AddGameError {
    /// The settings are not in order.
    Settings,
    /// The id names a listener already.
    IdTaken,
    /// A pack could not be loaded.
    Pack(PackError),
}

impl LobbyView {
    /// What a request to add a game under the id `game_id` comes to: it is refused, and
    /// the lobby has the games it had, where the settings are not in order, where the id
    /// names a listener, and where a pack cannot be loaded, in which case the packs that
    /// were loaded for the game are let go of. Else the game is the lobby's newest, with
    /// its packs loaded for it.
    pub open spec fn game_added(
        self,
        settings: GameSettingsView,
        game_id: ListenerId,
        added: Result<usize, AddGameError>,
        post: LobbyView,
    ) -> bool {
        let (store, failed) = loads(self.store, settings.packs, game_id);
        if settings_error(settings) is Some {
            added == Err::<usize, AddGameError>(AddGameError::Settings) && post == self
        } else if self.is_listener(game_id) {
            added == Err::<usize, AddGameError>(AddGameError::IdTaken) && post == self
        } else if failed is Some {
            &&& added == Err::<usize, AddGameError>(AddGameError::Pack(failed->Some_0))
            &&& post == (LobbyView {
                store: PackStoreView { loaded: released(store.loaded, game_id), ..store },
                ..self
            })
        } else {
            &&& added == Ok::<usize, AddGameError>(self.games.len() as usize)
            &&& post == (LobbyView {
                store,
                games: self.games.push(
                    GameView::created(game_id, Self::packs_for(store, settings), settings),
                ),
                handles: self.handles.push(game_id),
                ..self
            })
        }
    }
}

impl LobbyView {
    /// The packs that a game created with `settings` has, where `store` is the store after
    /// they were loaded for it.
    pub open spec fn packs_for(store: PackStoreView, settings: GameSettingsView)
        -> Seq<crate::cards::PackView> {
        Seq::new(settings.packs.len(), |k: int| pack_called(store, settings.packs[k]))
    }

    /// What a request to create a game under the id `game_id` comes to.
    ///
    /// Settings that are not in order are rejected with the reason; a sender who is not
    /// connected is rejected; an id that is taken, or a pack that cannot be loaded, is
    /// rejected as an error, and the packs that were loaded for the game are let go of.
    /// Else the game is the lobby's newest, its packs are loaded for it, and the sender is
    /// bound to it and joins it.
    pub open spec fn server_created(
        self,
        clients: ClientHandlerView,
        settings: GameSettingsView,
        sender: ClientId,
        game_id: ListenerId,
        response: PacketResponseView,
        post: LobbyView,
        clients_post: ClientHandlerView,
    ) -> bool {
        if settings_error(settings) is Some {
            &&& response == PacketResponseView::RejectedWithReason(settings_error(settings)->Some_0)
            &&& post == self
            &&& clients_post == clients
        } else if !clients.has_client(sender) {
            &&& response == PacketResponseView::Rejected
            &&& post == self
            &&& clients_post == clients
        } else if self.is_listener(game_id) {
            &&& response == PacketResponseView::RejectedWithReason("Error creating new game"@)
            &&& post == self
            &&& clients_post == clients
        } else {
            let (store, failed) = loads(self.store, settings.packs, game_id);
            if failed is Some {
                &&& response == PacketResponseView::RejectedWithReason("Error creating new game"@)
                &&& post == (LobbyView {
                    store: PackStoreView { loaded: released(store.loaded, game_id), ..store },
                    ..self
                })
                &&& clients_post == clients
            } else {
                &&& response == PacketResponseView::Accepted
                &&& post.id == self.id
                &&& post.store == store
                &&& post.games.len() == self.games.len() + 1
                &&& post.games.drop_last() == self.games
                &&& post.handles == self.handles.push(game_id)
                &&& GameView::created(
                    game_id,
                    Self::packs_for(store, settings),
                    settings,
                ).connect_handled(
                    sender,
                    post.games.last(),
                    frames_since(clients.outbox, clients_post.outbox),
                )
                &&& clients_post.clients == clients.rebound(sender, game_id).clients
                &&& only_grew(clients.outbox, clients_post.outbox)
            }
        }
    }

    /// What a request to join the listener `target` comes to: an id that names no
    /// listener is rejected with a reason, a sender who is not connected is rejected;
    /// else the sender is bound to the listener, which takes them in.
    pub open spec fn game_joined(
        self,
        clients: ClientHandlerView,
        target: ListenerId,
        sender: ClientId,
        response: PacketResponseView,
        post: LobbyView,
        clients_post: ClientHandlerView,
    ) -> bool {
        if !self.is_listener(target) {
            &&& response == PacketResponseView::RejectedWithReason("Invalid server id"@)
            &&& post == self
            &&& clients_post == clients
        } else if !clients.has_client(sender) {
            &&& response == PacketResponseView::Rejected
            &&& post == self
            &&& clients_post == clients
        } else {
            &&& response == PacketResponseView::Accepted
            &&& self.forwarded(clients, sender, target, post, clients_post)
        }
    }

    /// Whether `post` and `clients_post` are what forwarding the connected client
    /// `client_id` to the listener `target` makes: the client is bound to the listener,
    /// and the listener takes them in.
    pub open spec fn forwarded(
        self,
        clients: ClientHandlerView,
        client_id: ClientId,
        target: ListenerId,
        post: LobbyView,
        clients_post: ClientHandlerView,
    ) -> bool {
        &&& clients_post.clients == clients.rebound(client_id, target).clients
        &&& only_grew(clients.outbox, clients_post.outbox)
        &&& if target == self.id {
            &&& post == self.swept()
            &&& frames_since(clients.outbox, clients_post.outbox) == post.welcome_frames(client_id)
        } else {
            &&& post.id == self.id
            &&& post.store == self.store
            &&& post.handles == self.handles
            &&& post.games == self.games.update(
                self.game_index(target),
                post.games[self.game_index(target)],
            )
            &&& self.game(target).connect_handled(
                client_id,
                post.games[self.game_index(target)],
                frames_since(clients.outbox, clients_post.outbox),
            )
        }
    }

    /// What a packet from `sender` comes to. A request to create a game is handled under
    /// some freshly minted id; a request for the list of games sweeps the lobby's handles
    /// and is answered with the games that are left; a request for the catalog is
    /// answered with it; a packet for a game is rejected and changes nothing.
    pub open spec fn packet_handled(
        self,
        clients: ClientHandlerView,
        packet: ServerBoundView,
        sender: ClientId,
        response: PacketResponseView,
        post: LobbyView,
        clients_post: ClientHandlerView,
    ) -> bool {
        match packet {
            ServerBoundView::CreateServer(settings) => exists|game_id: ListenerId|
                is_random_uuid(game_id) && #[trigger] self.server_created(
                    clients,
                    settings,
                    sender,
                    game_id,
                    response,
                    post,
                    clients_post,
                ),
            ServerBoundView::JoinGame(target) => self.game_joined(
                clients,
                target,
                sender,
                response,
                post,
                clients_post,
            ),
            ServerBoundView::RefreshServerList => {
                &&& response == PacketResponseView::Accepted
                &&& post == self.swept()
                &&& clients_post.clients == clients.clients
                &&& clients_post.outbox == if clients.has_client(sender) {
                    clients.outbox.push(post.server_list_frame(sender))
                } else {
                    clients.outbox
                }
            },
            ServerBoundView::RequestCardPacks => {
                &&& response == PacketResponseView::Accepted
                &&& post == self
                &&& clients_post.clients == clients.clients
                &&& clients_post.outbox == if clients.has_client(sender) {
                    clients.outbox.push(self.card_packs_frame(sender))
                } else {
                    clients.outbox
                }
            },
            _ => {
                &&& response == PacketResponseView::Rejected
                &&& post == self
                &&& clients_post == clients
            },
        }
    }
}

impl Lobby {
    /// Why a game cannot be created with `settings`, or nothing where it can.
    pub fn check_settings(settings: &GameSettings) -> (refusal: Option<PacketResponse>)
        ensures
            match refusal {
                Some(response) => settings_error(settings@) matches Some(reason) && response@
                    == PacketResponseView::RejectedWithReason(reason),
                None => settings_error(settings@) is None,
            },
    {
        if settings.packs.len() == 0 {
            return Some(PacketResponse::rejected_because("Packs cannot be empty"));
        }
        if settings.points_to_win == 0 {
            return Some(PacketResponse::rejected_because("Point to win has to be at least 1"));
        }
        match settings.max_players {
            Some(limit) => {
                if limit < 2 {
                    return Some(
                        PacketResponse::rejected_because("Max players needs to be at least 2"),
                    );
                }
            },
            None => {},
        }
        None
    }

    /// Creates a game with `settings` under the id `game_id`, with its packs loaded for it,
    /// as the lobby's newest game. Returns the position of the game among the games.
    ///
    /// Refused where the settings are not in order, where the id names a listener already,
    /// and where a pack cannot be loaded; the packs that were loaded for the game are then
    /// let go of, and the lobby has the games it had.
    pub fn add_game(&mut self, settings: &GameSettings, game_id: ListenerId)
        -> (added: Result<usize, AddGameError>)
        requires
            old(self).wf(),
        ensures
            final(self).wf(),
            final(self)@.id == old(self)@.id,
            old(self)@.game_added(settings@, game_id, added, final(self)@),
            forall|id: ListenerId| old(self)@.is_listener(id)
                ==> #[trigger] final(self)@.is_listener(id),
            added is Ok ==> final(self)@.is_listener(game_id),
            added matches Ok(index) ==> index == old(self)@.games.len(),
    {
        let ghost pre = self@;
        if Self::check_settings(settings).is_some() {
            return Err(AddGameError::Settings);
        }
        if self.valid_listener(game_id) {
            return Err(AddGameError::IdTaken);
        }
        match Game::new(game_id, &mut self.pack_store, settings) {
            Err(error) => {
                proof {
                    assert forall|holder: ListenerId, name: Seq<char>| #[trigger]
                        self@.store.holds(holder, name)
                            implies self@.has_game(holder) && self@.game(
                        holder,
                    ).has_pack(name) by {
                        assert(pre.store.holds(holder, name));
                    }
                    assert forall|k: int, name: Seq<char>|
                        0 <= k < self@.games.len() && (#[trigger] self@.games[k]).has_pack(name)
                        implies #[trigger] self@.store.holds(self@.games[k].id, name) by {
                        assert(keyed(pre.games)[k].0 == pre.games[k].id);
                        lemma_first_index_at_most(keyed(pre.games), pre.games[k].id, k);
                        assert(pre.store.holds(pre.games[k].id, name));
                    }
                }
                Err(AddGameError::Pack(error))
            },
            Ok(game) => {
                let ghost made = game@;
                let index = self.games.len();
                self.games.push(game);
                self.handles.push(game_id);
                proof {
                    assert(self@.games =~= pre.games.push(made));
                    assert forall|k: int| 0 <= k < self@.handles.len() implies self@.has_game(
                        #[trigger] self@.handles[k],
                    ) by {
                        if k < pre.handles.len() {
                            assert(pre.has_game(pre.handles[k]));
                            assert(keyed(self@.games) =~= keyed(pre.games).push((game_id, made)));
                            lemma_push_new_key(keyed(pre.games), game_id, made);
                        } else {
                            assert(keyed(self@.games) =~= keyed(pre.games).push((game_id, made)));
                            lemma_push_new_key(keyed(pre.games), game_id, made);
                        }
                    }
                    assert forall|a: int, b: int|
                        0 <= a < self@.handles.len() && 0 <= b < self@.handles.len() && a != b
                        implies self@.handles[a] != self@.handles[b] by {
                        if a < pre.handles.len() && b < pre.handles.len() {
                            assert(pre.handles[a] != pre.handles[b]);
                        } else {
                            let low = if a < b { a } else { b };
                            assert(pre.has_game(pre.handles[low]));
                        }
                    }
                    assert(keyed(self@.games) =~= keyed(pre.games).push((game_id, made)));
                    lemma_push_new_key(keyed(pre.games), game_id, made);
                    assert(made.wf());
                    assert forall|k: int| 0 <= k < self@.games.len() implies (
                    #[trigger] self@.games[k]).wf() && self@.games[k].id != self@.id by {
                        if k < pre.games.len() {
                            assert(self@.games[k] == pre.games[k]);
                        }
                    }
                    assert forall|holder: ListenerId, name: Seq<char>| #[trigger]
                        self@.store.holds(holder, name)
                            implies self@.has_game(holder) && self@.game(
                        holder,
                    ).has_pack(name) by {
                        if pre.store.holds(holder, name) {
                            assert(pre.has_game(holder));
                            assert(holder != game_id);
                            lemma_first_index(keyed(pre.games), holder);
                            assert(self@.game_index(holder) == pre.game_index(holder));
                            assert(self@.games[pre.game_index(holder)] == pre.games[pre.game_index(
                                holder,
                            )]);
                        } else {
                            let k = choose|k: int|
                                0 <= k < settings@.packs.len() && settings@.packs[k] == name;
                            assert(made.packs[k].name == name);
                            assert(self@.game_index(holder) == pre.games.len());
                        }
                    }
                    assert forall|k: int, name: Seq<char>|
                        0 <= k < self@.games.len() && (#[trigger] self@.games[k]).has_pack(name)
                        implies #[trigger] self@.store.holds(self@.games[k].id, name) by {
                        if k < pre.games.len() {
                            assert(self@.games[k] == pre.games[k]);
                            assert(pre.store.holds(pre.games[k].id, name));
                        } else {
                            let w = choose|w: int|
                                0 <= w < made.packs.len() && (#[trigger] made.packs[w]).name
                                    == name;
                            assert(settings@.packs[w] == name);
                        }
                    }
                    assert forall|id: ListenerId| pre.is_listener(id) implies #[trigger]
                        self@.is_listener(id) by {}
                }
                Ok(index)
            },
        }
    }

    /// Creates a game with `settings` under the id `game_id`, binds `sender` to it and
    /// lets them join it.
    pub fn create_server(
        &mut self,
        client_handler: &mut ClientHandler,
        settings: &GameSettings,
        sender: ClientId,
        game_id: ListenerId,
    ) -> (response: PacketResponse)
        requires
            old(self).wf(),
            old(client_handler).wf(),
        ensures
            final(self).wf(),
            final(client_handler).wf(),
            final(self)@.id == old(self)@.id,
            old(self)@.server_created(
                old(client_handler)@,
                settings@,
                sender,
                game_id,
                response@,
                final(self)@,
                final(client_handler)@,
            ),
            forall|id: ListenerId| old(self)@.is_listener(id)
                ==> #[trigger] final(self)@.is_listener(id),
            response@ == PacketResponseView::Accepted ==> final(self)@.is_listener(game_id),
            final(client_handler)@.same_clients(old(client_handler)@),
            all_bound(old(self)@, old(client_handler)@) ==> all_bound(
                final(self)@,
                final(client_handler)@,
            ),
    {
        let ghost pre = self@;
        let ghost clients = client_handler@;
        match Self::check_settings(settings) {
            Some(refusal) => {
                return refusal;
            },
            None => {},
        }
        if client_handler.get_client(sender).is_none() {
            return PacketResponse::Rejected;
        }
        let index = match self.add_game(settings, game_id) {
            Ok(index) => index,
            Err(_) => {
                proof {
                    if all_bound(pre, clients) {
                        assert forall|i: int| 0 <= i < clients.clients.len()
                            implies self@.is_listener(
                            (#[trigger] clients.clients[i]).1.listener,
                        ) by {
                            assert(pre.is_listener(clients.clients[i].1.listener));
                        }
                    }
                }
                return PacketResponse::rejected_because("Error creating new game");
            },
        };
        let ghost added = self@;
        client_handler.rebind(sender, game_id);
        self.game_connected(&mut client_handler.outbox, index, sender);
        proof {
            assert(index == pre.games.len());
            assert(added.games.len() == pre.games.len() + 1);
            assert(added.games.drop_last() =~= pre.games);
            assert(self@.games.len() == added.games.len());
            assert(self@.games.drop_last() =~= pre.games);
            assert(self@.games.last() == self@.games[index as int]);
            assert forall|id: ListenerId| pre.is_listener(id) implies #[trigger] self@.is_listener(
                id,
            ) by {
                assert(added.is_listener(id));
                assert(self@.game_index(id) == added.game_index(id));
            }
            assert(self@.game_index(game_id) == added.game_index(game_id));
            if all_bound(pre, clients) {
                assert forall|i: int| 0 <= i < client_handler@.clients.len()
                    implies self@.is_listener(
                    (#[trigger] client_handler@.clients[i]).1.listener,
                ) by {
                    lemma_first_index(clients.clients, sender);
                    assert(client_handler@.clients == clients.rebound(sender, game_id).clients);
                    if i != first_index(clients.clients, sender) {
                        assert(client_handler@.clients[i] == clients.clients[i]);
                        assert(pre.is_listener(clients.clients[i].1.listener));
                    }
                }
            }
        }
        PacketResponse::Accepted
    }

    /// Binds the connected client `client_id` to the listener `target`, which takes them
    /// in. Returns whether that was done: it is not where the client is not connected or
    /// the id names no listener, and then nothing changes.
    pub fn forward_client(
        &mut self,
        client_handler: &mut ClientHandler,
        client_id: ClientId,
        target: ListenerId,
    ) -> (forwarded: bool)
        requires
            old(self).wf(),
            old(client_handler).wf(),
        ensures
            final(self).wf(),
            final(client_handler).wf(),
            final(self)@.id == old(self)@.id,
            forwarded == (old(self)@.is_listener(target)
                && old(client_handler)@.has_client(client_id)),
            forwarded ==> old(self)@.forwarded(
                old(client_handler)@,
                client_id,
                target,
                final(self)@,
                final(client_handler)@,
            ),
            !forwarded ==> final(self)@ == old(self)@ && final(client_handler)@ == old(
                client_handler,
            )@,
            forall|id: ListenerId| #[trigger] final(self)@.is_listener(id)
                == old(self)@.is_listener(id),
            final(client_handler)@.same_clients(old(client_handler)@),
            all_bound(old(self)@, old(client_handler)@) ==> all_bound(
                final(self)@,
                final(client_handler)@,
            ),
    {
        let ghost pre = self@;
        let ghost clients = client_handler@;
        if client_handler.get_client(client_id).is_none() {
            return false;
        }
        if target == self.id {
            client_handler.rebind(client_id, target);
            let ghost bound = client_handler@;
            self.client_connected(client_handler, client_id);
            proof {
                lemma_first_index(clients.clients, client_id);
                lemma_update_value(
                    clients.clients,
                    first_index(clients.clients, client_id),
                    crate::clients::Client { id: client_id, listener: target },
                );
                assert(bound.has_client(client_id));
                lemma_queued(clients.outbox, self@.welcome_frames(client_id));
                if all_bound(pre, clients) {
                    assert forall|i: int| 0 <= i < client_handler@.clients.len()
                        implies self@.is_listener(
                        (#[trigger] client_handler@.clients[i]).1.listener,
                    ) by {
                        assert(client_handler@.clients
                            == clients.rebound(client_id, target).clients);
                        if i != first_index(clients.clients, client_id) {
                            assert(client_handler@.clients[i] == clients.clients[i]);
                        }
                    }
                }
            }
            return true;
        }
        match self.find_game(target) {
            Some(index) => {
                client_handler.rebind(client_id, target);
                self.game_connected(&mut client_handler.outbox, index, client_id);
                proof {
                    assert forall|id: ListenerId| #[trigger]
                        self@.is_listener(id) == pre.is_listener(id) by {
                        assert(self@.game_index(id) == pre.game_index(id));
                    }
                    if all_bound(pre, clients) {
                        assert forall|i: int| 0 <= i < client_handler@.clients.len()
                            implies self@.is_listener(
                            (#[trigger] client_handler@.clients[i]).1.listener,
                        ) by {
                            lemma_first_index(clients.clients, client_id);
                            assert(client_handler@.clients
                                == clients.rebound(client_id, target).clients);
                            if i != first_index(clients.clients, client_id) {
                                assert(client_handler@.clients[i] == clients.clients[i]);
                                assert(pre.is_listener(clients.clients[i].1.listener));
                            }
                        }
                    }
                }
                true
            },
            None => false,
        }
    }

    /// Binds `sender` to the listener `target` and lets them join it.
    pub fn join_game(
        &mut self,
        client_handler: &mut ClientHandler,
        target: ListenerId,
        sender: ClientId,
    ) -> (response: PacketResponse)
        requires
            old(self).wf(),
            old(client_handler).wf(),
        ensures
            final(self).wf(),
            final(client_handler).wf(),
            final(self)@.id == old(self)@.id,
            old(self)@.game_joined(
                old(client_handler)@,
                target,
                sender,
                response@,
                final(self)@,
                final(client_handler)@,
            ),
            forall|id: ListenerId| #[trigger] final(self)@.is_listener(id)
                == old(self)@.is_listener(id),
            final(client_handler)@.same_clients(old(client_handler)@),
            all_bound(old(self)@, old(client_handler)@) ==> all_bound(
                final(self)@,
                final(client_handler)@,
            ),
    {
        if !self.valid_listener(target) {
            return PacketResponse::rejected_because("Invalid server id");
        }
        if self.forward_client(client_handler, sender, target) {
            PacketResponse::Accepted
        } else {
            PacketResponse::Rejected
        }
    }

    /// Handles one packet that `sender` sent while bound to the lobby, and returns the
    /// verdict on it.
    pub fn handle_packet(
        &mut self,
        client_handler: &mut ClientHandler,
        packet: &ServerBoundPacket,
        sender: ClientId,
    ) -> (response: PacketResponse)
        requires
            old(self).wf(),
            old(client_handler).wf(),
        ensures
            final(self).wf(),
            final(client_handler).wf(),
            final(self)@.id == old(self)@.id,
            old(self)@.packet_handled(
                old(client_handler)@,
                packet@,
                sender,
                response@,
                final(self)@,
                final(client_handler)@,
            ),
            forall|id: ListenerId| old(self)@.is_listener(id)
                ==> #[trigger] final(self)@.is_listener(id),
            final(client_handler)@.same_clients(old(client_handler)@),
            all_bound(old(self)@, old(client_handler)@) ==> all_bound(
                final(self)@,
                final(client_handler)@,
            ),
    {
        match packet {
            ServerBoundPacket::CreateServer(settings) => {
                let game_id = mint_id();
                self.create_server(client_handler, settings, sender, game_id)
            },
            ServerBoundPacket::JoinGame(target) => self.join_game(client_handler, *target, sender),
            ServerBoundPacket::RefreshServerList => {
                self.send_server_list(client_handler, sender);
                PacketResponse::Accepted
            },
            ServerBoundPacket::RequestCardPacks => {
                self.send_card_packs(client_handler, sender);
                PacketResponse::Accepted
            },
            _ => PacketResponse::Rejected,
        }
    }
}

/// Whether a game can be dropped: it is over and deserted, and no client is bound to it.
pub open spec fn can_reap(game: GameView, clients: ClientHandlerView) -> bool {
    game.is_terminated() && !clients.is_bound(game.id)
}

/// The games that a sweep keeps, in their order.
pub open spec fn kept_games(games: Seq<GameView>, clients: ClientHandlerView) -> Seq<GameView>
    decreases games.len(),
{
    if games.len() == 0 {
        games
    } else if can_reap(games.last(), clients) {
        kept_games(games.drop_last(), clients)
    } else {
        kept_games(games.drop_last(), clients).push(games.last())
    }
}

/// The lobby's handles after a sweep of `games`: the handle on each game that is dropped
/// is dropped with it.
pub open spec fn handles_after_reap(
    handles: Seq<ListenerId>,
    games: Seq<GameView>,
    clients: ClientHandlerView,
) -> Seq<ListenerId>
    decreases games.len(),
{
    if games.len() == 0 {
        handles
    } else {
        let mid = handles_after_reap(handles, games.drop_last(), clients);
        if can_reap(games.last(), clients) {
            without(mid, games.last().id)
        } else {
            mid
        }
    }
}

/// The store after a sweep of `games`: each game that is dropped lets go of its packs.
pub open spec fn store_after_reap(
    store: PackStoreView,
    games: Seq<GameView>,
    clients: ClientHandlerView,
) -> PackStoreView
    decreases games.len(),
{
    if games.len() == 0 {
        store
    } else {
        let mid = store_after_reap(store, games.drop_last(), clients);
        if can_reap(games.last(), clients) {
            PackStoreView { loaded: released(mid.loaded, games.last().id), ..mid }
        } else {
            mid
        }
    }
}

impl Lobby {
    /// Drops the game at position `index`, which lets go of its packs, and with it the
    /// lobby's handle on it.
    pub fn remove_game(&mut self, index: usize)
        requires
            old(self).wf(),
            index < old(self)@.games.len(),
        ensures
            final(self).wf(),
            final(self)@ == (LobbyView {
                store: PackStoreView {
                    loaded: released(old(self)@.store.loaded, old(self)@.games[index as int].id),
                    ..old(self)@.store
                },
                games: old(self)@.games.remove(index as int),
                handles: without(old(self)@.handles, old(self)@.games[index as int].id),
                ..old(self)@
            }),
            !final(self)@.has_game(old(self)@.games[index as int].id),
            forall|id: ListenerId|
                id != old(self)@.games[index as int].id ==> #[trigger] final(self)@.is_listener(id)
                    == old(self)@.is_listener(id),
    {
        let ghost pre = self@;
        let ghost gone = pre.games[index as int].id;
        let game = self.games.remove(index);
        self.pack_store.release_all(game.id);
        self.handles = drop_holder(&self.handles, game.id);
        proof {
            lemma_without(pre.handles, gone);
            lemma_without_distinct(pre.handles, gone);
            assert(self@.games =~= pre.games.remove(index as int));
            assert(keyed(self@.games) =~= keyed(pre.games).remove(index as int));
            lemma_remove_entry(keyed(pre.games), index as int);
            lemma_released_holds(pre.store, gone);
            assert(self@.store == (PackStoreView {
                loaded: released(pre.store.loaded, gone),
                ..pre.store
            }));
            assert forall|k: int| 0 <= k < self@.games.len()
                implies (#[trigger] self@.games[k]).wf()
                && self@.games[k].id != self@.id by {
                let k0 = if k < index { k } else { k + 1 };
                assert(self@.games[k] == pre.games[k0]);
            }
            assert forall|holder: ListenerId, name: Seq<char>| #[trigger]
                self@.store.holds(holder, name) implies self@.has_game(holder) && self@.game(
                holder,
            ).has_pack(name) by {
                assert(holder != gone && pre.store.holds(holder, name));
                assert(pre.has_game(holder));
                lemma_first_index(keyed(pre.games), holder);
                let k0 = pre.game_index(holder);
                let k = if k0 < index { k0 } else { k0 - 1 };
                assert(self@.game_index(holder) == k);
                assert(self@.games[k] == pre.games[k0]);
            }
            assert forall|k: int, name: Seq<char>|
                0 <= k < self@.games.len() && (#[trigger] self@.games[k]).has_pack(name)
                    implies #[trigger]
                self@.store.holds(self@.games[k].id, name) by {
                let k0 = if k < index { k } else { k + 1 };
                assert(self@.games[k] == pre.games[k0]);
                assert(keyed(pre.games)[k0].0 != keyed(pre.games)[index as int].0);
                assert(pre.store.holds(pre.games[k0].id, name));
            }
            assert forall|k: int| 0 <= k < self@.handles.len() implies self@.has_game(
                #[trigger] self@.handles[k],
            ) by {
                let handle = self@.handles[k];
                assert(self@.handles.contains(handle));
                assert(pre.handles.contains(handle));
                let w = choose|w: int| 0 <= w < pre.handles.len() && pre.handles[w] == handle;
                assert(pre.has_game(pre.handles[w]));
            }
        }
    }

    /// Sweeps the games: drops every game that is over and deserted and that no client
    /// is bound to, with the lobby's handle on it, and lets go of the packs of each.
    pub fn reap(&mut self, client_handler: &ClientHandler)
        requires
            old(self).wf(),
        ensures
            final(self).wf(),
            final(self)@ == (LobbyView {
                store: store_after_reap(old(self)@.store, old(self)@.games, client_handler@),
                games: kept_games(old(self)@.games, client_handler@),
                handles: handles_after_reap(
                    old(self)@.handles,
                    old(self)@.games,
                    client_handler@,
                ),
                ..old(self)@
            }),
            forall|id: ListenerId|
                old(self)@.is_listener(id) && client_handler@.is_bound(id)
                    ==> #[trigger] final(self)@.is_listener(id),
            forall|i: int|
                0 <= i < final(self)@.games.len() ==> !can_reap(
                    #[trigger] final(self)@.games[i],
                    client_handler@,
                ),
    {
        let ghost pre = self@;
        let ghost clients = client_handler@;
        let ghost mut seen: int = 0;
        let mut i: usize = 0;
        assert(self@.games =~= kept_games(pre.games.take(0), clients) + pre.games.skip(0));
        while i < self.games.len()
            invariant
                self.wf(),
                clients == client_handler@,
                self@.id == pre.id,
                0 <= seen <= pre.games.len(),
                i == kept_games(pre.games.take(seen), clients).len(),
                self@.games == kept_games(pre.games.take(seen), clients) + pre.games.skip(seen),
                self@.store == store_after_reap(pre.store, pre.games.take(seen), clients),
                self@.handles == handles_after_reap(pre.handles, pre.games.take(seen), clients),
                forall|id: ListenerId|
                    pre.is_listener(id) && clients.is_bound(id)
                        ==> #[trigger] self@.is_listener(id),
                forall|j: int| 0 <= j < i ==> !can_reap(#[trigger] self@.games[j], clients),
            decreases self.games.len() - i, pre.games.len() - seen,
        {
            let ghost before = self@;
            proof {
                assert(self@.games[i as int] == pre.games[seen]);
                assert(pre.games.take(seen + 1).drop_last() =~= pre.games.take(seen));
                assert(pre.games.take(seen + 1).last() == pre.games[seen]);
            }
            if self.games[i].is_terminated() && !client_handler.is_bound(self.games[i].id) {
                self.remove_game(i);
                proof {
                    assert(self@.games =~= kept_games(pre.games.take(seen + 1), clients)
                        + pre.games.skip(seen + 1));
                    assert forall|j: int| 0 <= j < i implies !can_reap(
                        #[trigger] self@.games[j],
                        clients,
                    ) by {
                        assert(self@.games[j] == before.games[j]);
                    }
                    seen = seen + 1;
                }
            } else {
                proof {
                    assert(self@.games =~= kept_games(pre.games.take(seen + 1), clients)
                        + pre.games.skip(seen + 1));
                    seen = seen + 1;
                }
                i += 1;
            }
        }
        proof {
            assert(seen == pre.games.len()) by {
                assert(self@.games.len() == i + pre.games.skip(seen).len());
            }
            assert(pre.games.take(seen) =~= pre.games);
            assert(self@.games =~= kept_games(pre.games, clients));
        }
    }
}

/// A sweep keeps exactly the games that cannot be dropped.
pub proof fn lemma_kept_games(games: Seq<GameView>, clients: ClientHandlerView)
    ensures
        forall|k: int|
            0 <= k < kept_games(games, clients).len() ==> games.contains(
                #[trigger] kept_games(games, clients)[k],
            ) && !can_reap(kept_games(games, clients)[k], clients),
        forall|i: int|
            0 <= i < games.len() && !can_reap(#[trigger] games[i], clients) ==> kept_games(
                games,
                clients,
            ).contains(games[i]),
    decreases games.len(),
{
    if games.len() > 0 {
        let front = games.drop_last();
        let kept = kept_games(games, clients);
        let rest = kept_games(front, clients);
        lemma_kept_games(front, clients);
        assert forall|k: int| 0 <= k < kept.len() implies games.contains(#[trigger] kept[k])
            && !can_reap(kept[k], clients) by {
            if k < rest.len() {
                assert(kept[k] == rest[k]);
                assert(front.contains(rest[k]));
                let j = choose|j: int| 0 <= j < front.len() && front[j] == rest[k];
                assert(games[j] == kept[k]);
            } else {
                assert(games[games.len() - 1] == kept[k]);
            }
        }
        assert forall|i: int| 0 <= i < games.len() && !can_reap(
            #[trigger] games[i],
            clients,
        ) implies kept.contains(games[i]) by {
            if i < front.len() {
                assert(front[i] == games[i]);
                assert(rest.contains(front[i]));
                let k = choose|k: int| 0 <= k < rest.len() && rest[k] == front[i];
                assert(kept[k] == games[i]);
            } else {
                assert(kept[kept.len() - 1] == games[i]);
            }
        }
    }
}

/// A game that is over and deserted, and that no client is bound to, is gone after the
/// next sweep.
pub proof fn lemma_deserted_game_is_swept(
    lobby: LobbyView,
    clients: ClientHandlerView,
    id: ListenerId,
)
    requires
        lobby.wf(),
        lobby.has_game(id),
        can_reap(lobby.game(id), clients),
    ensures
        !(LobbyView { games: kept_games(lobby.games, clients), ..lobby }).has_game(id),
{
    let kept = kept_games(lobby.games, clients);
    let after = LobbyView { games: kept, ..lobby };
    lemma_kept_games(lobby.games, clients);
    lemma_first_index(keyed(lobby.games), id);
    lemma_first_index(keyed(kept), id);
    if after.has_game(id) {
        let k = after.game_index(id);
        assert(keyed(kept)[k].0 == id);
        assert(lobby.games.contains(kept[k]));
        let j = choose|j: int| 0 <= j < lobby.games.len() && lobby.games[j] == kept[k];
        assert(keyed(lobby.games)[j].0 == id);
        lemma_first_index_unique(keyed(lobby.games), id, j);
        assert(lobby.game(id) == kept[k]);
    }
}

/// What a sweep of the lobby's handles comes to: the handle of no game that is over and
/// deserted is left, the handle of every other game stays, the list of games has one
/// entry for each handle that is left, and the registered games and the store are
/// untouched.
pub proof fn lemma_swept(lobby: LobbyView)
    requires
        lobby.wf(),
    ensures
        lobby.swept().wf(),
        lobby.swept().games == lobby.games,
        lobby.swept().store == lobby.store,
        forall|k: int|
            0 <= k < lobby.swept().handles.len() ==> lobby.handles.contains(
                #[trigger] lobby.swept().handles[k],
            ) && !lobby.game(lobby.swept().handles[k]).is_terminated(),
        forall|i: int|
            0 <= i < lobby.handles.len() && !lobby.game(#[trigger] lobby.handles[i]).is_terminated()
                ==> lobby.swept().handles.contains(lobby.handles[i]),
        lobby.swept().servers().len() == lobby.swept().handles.len(),
        forall|k: int|
            0 <= k < lobby.swept().handles.len() ==> (#[trigger] lobby.swept().servers()[k])
                == server_info(lobby.swept().handles[k], lobby.game(lobby.swept().handles[k])),
{
    let after = lobby.swept();
    lemma_kept_handles(lobby.handles, lobby.games);
    assert forall|k: int| 0 <= k < after.handles.len() implies after.has_game(
        #[trigger] after.handles[k],
    ) by {
        let handle = after.handles[k];
        assert(lobby.handles.contains(handle));
        let w = choose|w: int| 0 <= w < lobby.handles.len() && lobby.handles[w] == handle;
        assert(lobby.has_game(lobby.handles[w]));
    }
}

} // verus!
