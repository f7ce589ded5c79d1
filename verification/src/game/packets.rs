//! Handling the packets that a game is sent, and what no packet ever changes.

use vstd::prelude::*;
use crate::ids::{ClientId, ListenerId};
use crate::pack_store::{
    lemma_after_load_holds, lemma_after_unload_holds, PackStore, PackStoreView,
};
use crate::protocol::{
    frames_since, lemma_queued, only_grew, Frame, FrameView, GameSettingView, PacketResponse,
    PacketResponseView, ServerBoundPacket, ServerBoundView,
};
use crate::seqs::views_of;
use crate::vec_map::lemma_first_index;
use crate::game::{Game, GameView};
use crate::game::round::RoundRolls;
use crate::game::settings::{
    lemma_packs_without, lemma_packs_without_drops, lemma_packs_without_keeps,
};

verus! {

impl GameView {
    /// What a packet from `sender` comes to. Each kind of packet for a game has its own
    /// rule; a packet for the lobby is rejected and changes nothing.
    pub open spec fn packet_handled(
        self,
        store: PackStoreView,
        packet: ServerBoundView,
        sender: ClientId,
        response: PacketResponseView,
        post: GameView,
        store_post: PackStoreView,
        frames: Seq<FrameView>,
    ) -> bool {
        match packet {
            ServerBoundView::SetPlayerName(name) => store_post == store && self.name_handled(
                sender,
                name,
                response,
                post,
                frames,
            ),
            ServerBoundView::StartGame => store_post == store && self.start_handled(
                sender,
                response,
                post,
                frames,
            ),
            ServerBoundView::UpdateSetting(setting) => self.setting_handled(
                store,
                sender,
                setting,
                response,
                post,
                store_post,
                frames,
            ),
            ServerBoundView::SelectResponse(card) => store_post == store && self.select_handled(
                sender,
                card,
                response,
                post,
                frames,
            ),
            ServerBoundView::SelectRoundWinner(winner) => store_post == store && self.judge_handled(
                sender,
                winner,
                response,
                post,
                frames,
            ),
            ServerBoundView::LeaveGame => store_post == store && self.leave_handled(
                sender,
                response,
                post,
                frames,
            ),
            _ => {
                &&& response == PacketResponseView::Rejected
                &&& post == self
                &&& store_post == store
                &&& frames.len() == 0
            },
        }
    }

}

impl Game {
    /// Handles one packet that `sender` sent while bound to the game, and returns the
    /// verdict on it.
    pub fn handle_packet(
        &mut self,
        out: &mut Vec<Frame>,
        pack_store: &mut PackStore,
        packet: &ServerBoundPacket,
        sender: ClientId,
    ) -> (response: PacketResponse)
        requires
            old(self).wf(),
            old(pack_store).wf(),
        ensures
            final(self).wf(),
            final(pack_store).wf(),
            only_grew(views_of(old(out)@), views_of(final(out)@)),
            old(self)@.packet_handled(
                old(pack_store)@,
                packet@,
                sender,
                response@,
                final(self)@,
                final(pack_store)@,
                frames_since(views_of(old(out)@), views_of(final(out)@)),
            ),
    {
        match packet {
            ServerBoundPacket::SetPlayerName(name) => self.set_player_name(
                out,
                sender,
                name.as_str(),
            ),
            ServerBoundPacket::StartGame => self.start_game(out, sender),
            ServerBoundPacket::UpdateSetting(setting) => self.update_setting(
                out,
                pack_store,
                sender,
                setting,
            ),
            ServerBoundPacket::SelectResponse(card) => self.select_response(out, sender, *card),
            ServerBoundPacket::SelectRoundWinner(winner) => self.select_round_winner(
                out,
                sender,
                *winner,
            ),
            ServerBoundPacket::LeaveGame => self.leave_game(out, sender),
            _ => {
                proof {
                    lemma_queued(views_of(out@), Seq::empty());
                    assert(views_of(out@) + Seq::<FrameView>::empty() =~= views_of(out@));
                }
                PacketResponse::Rejected
            },
        }
    }
}

/// A client's connecting changes neither which game it is nor its packs.
pub proof fn lemma_connect_keeps(
    pre: GameView,
    client_id: ClientId,
    post: GameView,
    frames: Seq<FrameView>,
)
    requires
        pre.connect_handled(client_id, post, frames),
    ensures
        post.id == pre.id,
        post.packs == pre.packs,
{
    if !pre.has_player(client_id) {
        let rolls = choose|rolls: Seq<int>| #[trigger] pre.join_made(client_id, rolls, post,
            frames);
    }
}

/// A client's disconnecting changes neither which game it is nor its packs.
pub proof fn lemma_disconnect_keeps(
    pre: GameView,
    client_id: ClientId,
    post: GameView,
    frames: Seq<FrameView>,
)
    requires
        pre.disconnect_handled(client_id, post, frames),
    ensures
        post.id == pre.id,
        post.packs == pre.packs,
{
    if pre.has_player(client_id) && pre.players.len() != 1 && pre.is_czar_seat(
        pre.player_index(client_id),
    ) {
        let rolls = choose|rolls: RoundRolls| #[trigger] pre.czar_left(client_id, rolls, post,
            frames);
    }
}

/// A packet never changes which game it is, and only a change of settings changes the
/// game's packs or the store.
pub proof fn lemma_packet_keeps(
    pre: GameView,
    store: PackStoreView,
    packet: ServerBoundView,
    sender: ClientId,
    response: PacketResponseView,
    post: GameView,
    store_post: PackStoreView,
    frames: Seq<FrameView>,
)
    requires
        pre.packet_handled(store, packet, sender, response, post, store_post, frames),
    ensures
        post.id == pre.id,
        !(packet is UpdateSetting) ==> post.packs == pre.packs && store_post == store,
{
    match packet {
        ServerBoundView::StartGame => {
            if pre.can_start(sender) && pre.has_cards() {
                let (czar, rolls) = choose|czar: int, rolls: RoundRolls| #[trigger]
                    pre.start_made(czar, rolls, post, frames);
            }
        },
        ServerBoundView::SelectRoundWinner(winner) => {
            if pre.can_judge(sender) && pre.can_win(winner) && !pre.wins_game(winner) {
                let rolls = choose|rolls: RoundRolls| #[trigger] pre.round_won(winner, rolls, post,
                    frames);
            }
        },
        ServerBoundView::LeaveGame => {
            if pre.can_leave(sender) {
                lemma_disconnect_keeps(pre, sender, post, frames);
            }
        },
        _ => {},
    }
}

/// A packet keeps the books of the store in order: if the game had every pack that it
/// held before, it has every pack that it holds after, and nobody else holds a pack that
/// they did not hold before.
pub proof fn lemma_packet_holds(
    pre: GameView,
    store: PackStoreView,
    packet: ServerBoundView,
    sender: ClientId,
    response: PacketResponseView,
    post: GameView,
    store_post: PackStoreView,
    frames: Seq<FrameView>,
)
    requires
        store.wf(),
        store_post.wf(),
        pre.packet_handled(store, packet, sender, response, post, store_post, frames),
        forall|name: Seq<char>| #[trigger] store.holds(pre.id, name) <==> pre.has_pack(name),
    ensures
        forall|name: Seq<char>| #[trigger] store_post.holds(pre.id, name) <==> post.has_pack(name),
        forall|other: ListenerId, name: Seq<char>|
            other != pre.id ==> (#[trigger] store_post.holds(other, name) <==> store.holds(
                other,
                name,
            )),
{
    lemma_packet_keeps(pre, store, packet, sender, response, post, store_post, frames);
    match packet {
        ServerBoundView::UpdateSetting(setting) => {
            if pre.can_configure(sender) && pre.setting_error(store, setting) is None {
                match setting {
                    GameSettingView::AddPack(added) => {
                        lemma_after_load_holds(store, added, pre.id);
                        lemma_first_index(store_post.loaded, added);
                        assert forall|name: Seq<char>| #[trigger]
                            store_post.holds(pre.id, name) <==> post.has_pack(name) by {
                            if store_post.holds(pre.id, name) {
                                if name == added {
                                    assert(post.packs[post.packs.len() - 1].name == added);
                                } else {
                                    assert(store.holds(pre.id, name));
                                    let i = choose|i: int|
                                        0 <= i < pre.packs.len() && (#[trigger] pre.packs[i]).name
                                            == name;
                                    assert(post.packs[i].name == name);
                                }
                            }
                            if post.has_pack(name) && name != added {
                                let i = choose|i: int|
                                    0 <= i < post.packs.len() && (#[trigger] post.packs[i]).name
                                        == name;
                                assert(pre.packs[i].name == name);
                                assert(pre.has_pack(name));
                            }
                        }
                    },
                    GameSettingView::RemovePack(removed) => {
                        lemma_after_unload_holds(store, removed, pre.id);
                        lemma_packs_without(pre.packs, removed);
                        lemma_packs_without_drops(pre.packs, removed);
                        assert forall|name: Seq<char>| #[trigger]
                            store_post.holds(pre.id, name) <==> post.has_pack(name) by {
                            if store_post.holds(pre.id, name) {
                                assert(name != removed);
                                assert(store.holds(pre.id, name));
                                lemma_packs_without_keeps(pre.packs, removed, name);
                            }
                            if post.has_pack(name) {
                                let i = choose|i: int|
                                    0 <= i < post.packs.len() && (#[trigger] post.packs[i]).name
                                        == name;
                                assert(pre.packs.contains(post.packs[i]));
                                let j = choose|j: int|
                                    0 <= j < pre.packs.len() && pre.packs[j] == post.packs[i];
                                assert(pre.packs[j].name == name);
                                assert(pre.has_pack(name));
                                assert(name != removed);
                            }
                        }
                    },
                    _ => {},
                }
            }
        },
        _ => {},
    }
}

} // verus!
