//! Changing the settings of a game that waits to start, its packs among them.

use vstd::prelude::*;
use vstd::string::StringExecFns;
use std::rc::Rc;
use crate::cards::{Pack, PackView};
use crate::ids::ClientId;
use crate::pack_store::{share_pack, PackError, PackStore, PackStoreView};
use crate::protocol::{
    frames_since, lemma_queued, only_grew, ClientBoundPacket, ClientBoundView, Frame, FrameView,
    GameSetting, GameSettingView, PacketResponse, PacketResponseView,
};
use crate::seqs::views_of;
use crate::vec_map::first_index;
use crate::game::{Game, GameState, GameView, broadcast_frames};

verus! {

impl GameView {
    /// What a request to change a setting comes to: it is rejected and nothing changes
    /// unless the sender may change the settings and the setting is in order; else the
    /// setting is applied, to the game and to the store, and every player is told.
    pub open spec fn setting_handled(
        self,
        store: PackStoreView,
        sender: ClientId,
        setting: GameSettingView,
        response: PacketResponseView,
        post: GameView,
        store_post: PackStoreView,
        frames: Seq<FrameView>,
    ) -> bool {
        if !self.can_configure(sender) {
            &&& response == PacketResponseView::Rejected
            &&& post == self
            &&& store_post == store
            &&& frames.len() == 0
        } else {
            match self.setting_error(store, setting) {
                Some(refusal) => {
                    &&& response == refusal
                    &&& post == self
                    &&& store_post == store
                    &&& frames.len() == 0
                },
                None => {
                    &&& response == PacketResponseView::Accepted
                    &&& store_post == self.store_after_setting(store, setting)
                    &&& post == self.with_setting(store_post, setting)
                    &&& frames == broadcast_frames(
                        self.players,
                        ClientBoundView::SettingUpdate(setting),
                    )
                },
            }
        }
    }
}

/// The packs of `packs` that are not called `name`, in their order.
pub open spec fn packs_without(packs: Seq<PackView>, name: Seq<char>) -> Seq<PackView>
    decreases packs.len(),
{
    if packs.len() == 0 {
        packs
    } else if packs.last().name == name {
        packs_without(packs.drop_last(), name)
    } else {
        packs_without(packs.drop_last(), name).push(packs.last())
    }
}

/// Every pack of `packs_without` is a pack of `packs`.
pub proof fn lemma_packs_without(packs: Seq<PackView>, name: Seq<char>)
    ensures
        packs_without(packs, name).len() <= packs.len(),
        forall|i: int|
            0 <= i < packs_without(packs, name).len() ==> packs.contains(
                #[trigger] packs_without(packs, name)[i],
            ),
    decreases packs.len(),
{
    if packs.len() > 0 {
        let front = packs.drop_last();
        lemma_packs_without(front, name);
        let out = packs_without(packs, name);
        assert forall|i: int| 0 <= i < out.len() implies packs.contains(#[trigger] out[i]) by {
            if i < packs_without(front, name).len() {
                assert(front.contains(packs_without(front, name)[i]));
                let j = choose|j: int| 0 <= j < front.len() && front[j] == out[i];
                assert(packs[j] == out[i]);
            } else {
                assert(packs[packs.len() - 1] == out[i]);
            }
        }
    }
}

/// Why a pack could not be added to a game.
pub open spec fn load_failure(name: Seq<char>, error: PackError) -> Seq<char> {
    "Failed to load pack "@ + name + ": "@ + error.text()
}

impl GameView {
    /// Whether the game has a pack called `name`.
    pub open spec fn has_pack(self, name: Seq<char>) -> bool {
        exists|i: int| 0 <= i < self.packs.len() && (#[trigger] self.packs[i]).name == name
    }

    /// Whether `sender` may change the settings: the game waits to start, and the sender
    /// is its host.
    pub open spec fn can_configure(self, sender: ClientId) -> bool {
        &&& self.state == GameState::WaitingToStart
        &&& self.has_player(sender)
        &&& sender == self.host_id
    }

    /// Why `setting` is refused, or nothing where it is applied: a player limit under
    /// two, no points to win, a pack the game has already, or a pack that cannot be
    /// loaded.
    pub open spec fn setting_error(self, store: PackStoreView, setting: GameSettingView)
        -> Option<PacketResponseView> {
        match setting {
            GameSettingView::MaxPlayers(limit) => if limit matches Some(n) && n < 2 {
                Some(PacketResponseView::RejectedWithReason("Max players needs to be at least 2"@))
            } else {
                None
            },
            GameSettingView::MaxSelectionTime(_) => None,
            GameSettingView::PointsToWin(points) => if points == 0 {
                Some(PacketResponseView::RejectedWithReason("Point to win has to be at least 1"@))
            } else {
                None
            },
            GameSettingView::AddPack(name) => if self.has_pack(name) {
                Some(PacketResponseView::Rejected)
            } else {
                match store.load_error(name) {
                    Some(error) => Some(
                        PacketResponseView::RejectedWithReason(load_failure(name, error)),
                    ),
                    None => None,
                }
            },
            GameSettingView::RemovePack(_) => None,
        }
    }

    /// The store after `setting` was applied to the game: an added pack is loaded for the
    /// game, a removed one is let go of.
    pub open spec fn store_after_setting(
        self,
        store: PackStoreView,
        setting: GameSettingView,
    ) -> PackStoreView {
        match setting {
            GameSettingView::AddPack(name) => store.after_load(name, self.id),
            GameSettingView::RemovePack(name) => store.after_unload(name, self.id),
            _ => store,
        }
    }

    /// The game after `setting` was applied, where `store` is the store after it.
    pub open spec fn with_setting(
        self,
        store: PackStoreView,
        setting: GameSettingView,
    ) -> GameView {
        match setting {
            GameSettingView::MaxPlayers(limit) => GameView { max_players: limit, ..self },
            GameSettingView::MaxSelectionTime(limit) => GameView {
                max_selection_time: limit,
                ..self
            },
            GameSettingView::PointsToWin(points) => GameView { points_to_win: points, ..self },
            GameSettingView::AddPack(name) => GameView {
                packs: self.packs.push(store.loaded[first_index(store.loaded, name)].1.pack),
                ..self
            },
            GameSettingView::RemovePack(name) => GameView {
                packs: packs_without(self.packs, name),
                ..self
            },
        }
    }
}

impl Game {
    /// Whether the game has a pack called `name`.
    pub(crate) fn has_pack(&self, name: &String) -> (found: bool)
        ensures
            found == self@.has_pack(name@),
    {
        let mut i: usize = 0;
        while i < self.packs.len()
            invariant
                i <= self.packs.len(),
                forall|j: int| 0 <= j < i ==> (#[trigger] self@.packs[j]).name != name@,
            decreases self.packs.len() - i,
        {
            if self.packs[i].name == *name {
                assert(self@.packs[i as int].name == name@);
                return true;
            }
            assert(self@.packs[i as int].name != name@);
            i += 1;
        }
        false
    }

    /// Drops the packs called `name` from the game's packs.
    pub(crate) fn remove_packs(&mut self, name: &String)
        ensures
            final(self)@ == (GameView {
                packs: packs_without(old(self)@.packs, name@),
                ..old(self)@
            }),
    {
        let ghost before = self@.packs;
        let mut kept: Vec<Rc<Pack>> = Vec::new();
        let mut i: usize = 0;
        while i < self.packs.len()
            invariant
                i <= self.packs.len(),
                self@ == old(self)@,
                before == self@.packs,
                views_of(kept@) == packs_without(before.take(i as int), name@),
            decreases self.packs.len() - i,
        {
            assert(before.take(i + 1).drop_last() =~= before.take(i as int));
            assert(before.take(i + 1).last() == before[i as int]);
            if self.packs[i].name != *name {
                let ghost so_far = views_of(kept@);
                kept.push(share_pack(&self.packs[i]));
                assert(views_of(kept@) =~= so_far.push(before[i as int]));
            }
            i += 1;
        }
        assert(before.take(self.packs.len() as int) =~= before);
        self.packs = kept;
    }

    /// Changes one setting of the game and tells every player of it. Only the host may,
    /// and only while the game waits to start.
    ///
    /// A player limit under two and a points-to-win of zero are refused with a reason. A
    /// pack that the game has already is refused; one that cannot be loaded is refused
    /// with the reason. A removed pack is let go of in the store.
    pub fn update_setting(
        &mut self,
        out: &mut Vec<Frame>,
        pack_store: &mut PackStore,
        sender: ClientId,
        setting: &GameSetting,
    ) -> (response: PacketResponse)
        requires
            old(self).wf(),
            old(pack_store).wf(),
        ensures
            final(self).wf(),
            final(pack_store).wf(),
            only_grew(views_of(old(out)@), views_of(final(out)@)),
            old(self)@.setting_handled(
                old(pack_store)@,
                sender,
                setting@,
                response@,
                final(self)@,
                final(pack_store)@,
                frames_since(views_of(old(out)@), views_of(final(out)@)),
            ),
    {
        let ghost pre = self@;
        let ghost sent = views_of(out@);
        proof {
            lemma_queued(sent, Seq::empty());
            assert(sent + Seq::<FrameView>::empty() =~= sent);
        }
        match self.state {
            GameState::WaitingToStart => {},
            _ => {
                return PacketResponse::Rejected;
            },
        }
        if sender != self.host_id || self.player_position(sender).is_none() {
            return PacketResponse::Rejected;
        }
        match setting {
            GameSetting::MaxPlayers(limit) => {
                match limit {
                    Some(n) => {
                        if *n < 2 {
                            return PacketResponse::rejected_because(
                                "Max players needs to be at least 2",
                            );
                        }
                    },
                    None => {},
                }
                self.max_players = *limit;
            },
            GameSetting::MaxSelectionTime(limit) => {
                self.max_selection_time = *limit;
            },
            GameSetting::PointsToWin(points) => {
                if *points == 0 {
                    return PacketResponse::rejected_because("Point to win has to be at least 1");
                }
                self.points_to_win = *points;
            },
            GameSetting::AddPack(name) => {
                if self.has_pack(name) {
                    return PacketResponse::Rejected;
                }
                match pack_store.load_pack(name.as_str(), self.id) {
                    Ok(pack) => {
                        let ghost packs = views_of(self.packs@);
                        self.packs.push(pack);
                        proof {
                            assert(views_of(self.packs@) =~= packs.push(pack@));
                            assert(self@ == pre.with_setting(pack_store@, setting@));
                            assert forall|i: int| 0 <= i < self@.packs.len() implies (
                            #[trigger] self@.packs[i]).picks_in_range() by {
                                if i < packs.len() {
                                    assert(self@.packs[i] == pre.packs[i]);
                                }
                            }
                            assert(self.packs@.len() == self.packs.len());
                        }
                    },
                    Err(error) => {
                        let reason = String::from_str("Failed to load pack ").concat(
                            name.as_str(),
                        ).concat(": ").concat(error.message().as_str());
                        return PacketResponse::RejectedWithReason(reason);
                    },
                }
            },
            GameSetting::RemovePack(name) => {
                self.remove_packs(name);
                pack_store.unload_pack(name.as_str(), self.id);
                proof {
                    lemma_packs_without(pre.packs, name@);
                    assert forall|i: int| 0 <= i < self@.packs.len() implies (
                    #[trigger] self@.packs[i]).picks_in_range() by {
                        assert(pre.packs.contains(self@.packs[i]));
                    }
                    assert(self.packs@.len() == self.packs.len());
                }
            },
        }
        self.broadcast_to_players(out, &ClientBoundPacket::echo_setting_update(setting));
        proof {
            lemma_queued(
                sent,
                broadcast_frames(pre.players, ClientBoundView::SettingUpdate(setting@)),
            );
        }
        PacketResponse::Accepted
    }
}

/// No pack called `name` stays.
pub proof fn lemma_packs_without_drops(packs: Seq<PackView>, name: Seq<char>)
    ensures
        forall|i: int|
            0 <= i < packs_without(packs, name).len()
                ==> (#[trigger] packs_without(packs, name)[i]).name
                != name,
    decreases packs.len(),
{
    if packs.len() > 0 {
        let front = packs.drop_last();
        let out = packs_without(packs, name);
        lemma_packs_without_drops(front, name);
        assert forall|i: int| 0 <= i < out.len() implies (#[trigger] out[i]).name != name by {
            if i < packs_without(front, name).len() {
                assert(out[i] == packs_without(front, name)[i]);
            }
        }
    }
}

/// The packs other than those called `name` stay.
pub proof fn lemma_packs_without_keeps(packs: Seq<PackView>, name: Seq<char>, other: Seq<char>)
    requires
        other != name,
        exists|i: int| 0 <= i < packs.len() && (#[trigger] packs[i]).name == other,
    ensures
        exists|i: int|
            0 <= i < packs_without(packs, name).len() && (#[trigger] packs_without(
                packs,
                name,
            )[i]).name == other,
    decreases packs.len(),
{
    let i = choose|i: int| 0 <= i < packs.len() && (#[trigger] packs[i]).name == other;
    let front = packs.drop_last();
    let out = packs_without(packs, name);
    if i == packs.len() - 1 {
        assert(out[out.len() - 1].name == other);
    } else {
        assert(front[i].name == other);
        lemma_packs_without_keeps(front, name, other);
        let k = choose|k: int|
            0 <= k < packs_without(front, name).len() && (#[trigger] packs_without(
                front,
                name,
            )[k]).name == other;
        assert(out[k].name == other);
    }
}

} // verus!
