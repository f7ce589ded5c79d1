//! Taking in the clients that join a game, and letting go of those that leave.

use vstd::prelude::*;
use crate::cards::CardID;
use crate::deck::{cards_dealt, pool_after_deal, rolls_fit};
use crate::ids::ClientId;
use crate::protocol::{
    frames_since, lemma_grew_twice, lemma_queued, only_grew, send_packets, ClientBoundPacket,
    ClientBoundView, Frame, FrameView, PacketResponse, PacketResponseView,
};
use crate::seqs::views_of;
use crate::vec_map::{
    first_index, has_key, lemma_first_index, lemma_first_index_at_most,
    lemma_first_index_unique, lemma_push_new_key, lemma_remove_entry,
};
use crate::game::{
    broadcast_frames, lemma_first_index_views, lemma_ids_compare_by_value, response_counts,
    response_data, submissions_of, Game, GameState, GameView, Player, PlayerView, PlayingState,
    HAND_SIZE,
};
use crate::game::round::{deal, RoundRolls};

verus! {

/// The packets that introduce `players` to a client, in the players' order.
pub open spec fn player_packets(players: Seq<(ClientId, PlayerView)>) -> Seq<ClientBoundView> {
    Seq::new(players.len(), |i: int| players[i].1.as_packet())
}

impl GameView {
    /// The game with the client `client_id` seated as its newest player, as host if they
    /// are the only one.
    pub open spec fn seated(self, client_id: ClientId) -> GameView {
        GameView {
            players: self.players.push(
                (client_id, PlayerView::fresh(client_id, self.players.len() == 0)),
            ),
            host_id: if self.players.len() == 0 {
                client_id
            } else {
                self.host_id
            },
            ..self
        }
    }

    /// What a joiner is sent: every player including themselves, the settings and, where
    /// a round is under way, the round with the hand `hand`, and the submissions once
    /// they are shown.
    pub open spec fn join_burst(self, hand: Seq<CardID>) -> Seq<ClientBoundView> {
        player_packets(self.players) + self.settings_packets() + (if self.state is Playing {
            seq![
                ClientBoundView::NextRound {
                    czar: self.czar_id(),
                    prompt: self.current_prompt->Some_0,
                    new_responses: response_data(self.packs, hand),
                },
            ]
        } else {
            Seq::empty()
        }) + (if self.state == GameState::Playing(PlayingState::CzarSelection) {
            seq![self.display_responses()]
        } else {
            Seq::empty()
        })
    }

    /// Whether `post` and `frames` are what the joining of `client_id` makes of the game,
    /// with the random choices `rolls`: the players are told of the joiner, the joiner is
    /// seated and told of the game, and where a round is under way they are dealt a hand.
    pub open spec fn join_made(
        self,
        client_id: ClientId,
        rolls: Seq<int>,
        post: GameView,
        frames: Seq<FrameView>,
    ) -> bool {
        &&& rolls.len() == if self.state is Playing {
            HAND_SIZE
        } else {
            0
        }
        &&& rolls_fit(self.available_responses, self.all_responses(), rolls)
        &&& post == (GameView {
            available_responses: pool_after_deal(
                self.available_responses,
                self.all_responses(),
                rolls,
            ),
            ..self.seated(client_id)
        })
        &&& frames == broadcast_frames(
            self.players,
            PlayerView::fresh(client_id, self.players.len() == 0).as_packet(),
        ).push(
            FrameView {
                to: client_id,
                packets: post.join_burst(
                    cards_dealt(self.available_responses, self.all_responses(), rolls),
                ),
            },
        )
    }

    /// What the connecting of a client comes to: nothing where they play already; else
    /// they join, for some random choices.
    pub open spec fn connect_handled(
        self,
        client_id: ClientId,
        post: GameView,
        frames: Seq<FrameView>,
    ) -> bool {
        if self.has_player(client_id) {
            post == self && frames.len() == 0
        } else {
            exists|rolls: Seq<int>| #[trigger] self.join_made(client_id, rolls, post, frames)
        }
    }
}

impl Game {
    /// The packets that introduce the players to a client.
    pub(crate) fn player_packets(&self) -> (packets: Vec<ClientBoundPacket>)
        ensures
            views_of(packets@) == player_packets(self@.players),
    {
        let mut packets: Vec<ClientBoundPacket> = Vec::new();
        let mut i: usize = 0;
        while i < self.players.len()
            invariant
                i <= self.players.len(),
                views_of(packets@) == player_packets(self@.players).take(i as int),
            decreases self.players.len() - i,
        {
            let ghost before = views_of(packets@);
            packets.push(self.players.inner[i].1.as_packet());
            assert(views_of(packets@) =~= before.push(packets@.last()@));
            assert(views_of(packets@) =~= player_packets(self@.players).take(i + 1));
            i += 1;
        }
        assert(player_packets(self@.players).take(self.players.len() as int) =~= player_packets(
            self@.players,
        ));
        packets
    }

    /// Takes in a client that was bound to the game.
    ///
    /// The first player becomes host. The other players are told of the joiner; the
    /// joiner is told of every player, of the settings and, where a round is under way,
    /// of the round, with a freshly dealt hand. A client who plays already is left alone.
    pub fn client_connected(&mut self, out: &mut Vec<Frame>, client_id: ClientId)
        requires
            old(self).wf(),
        ensures
            final(self).wf(),
            only_grew(views_of(old(out)@), views_of(final(out)@)),
            old(self)@.connect_handled(
                client_id,
                final(self)@,
                frames_since(views_of(old(out)@), views_of(final(out)@)),
            ),
    {
        let ghost pre = self@;
        let ghost sent = views_of(out@);
        proof {
            lemma_queued(sent, Seq::empty());
            assert(sent + Seq::<FrameView>::empty() =~= sent);
            lemma_ids_compare_by_value();
            lemma_first_index_views(self.players@, client_id);
        }
        if self.player_position(client_id).is_some() {
            return ;
        }
        let set_host = self.players.len() == 0;
        if set_host {
            self.host_id = client_id;
        }
        let player = Player::new(client_id, set_host);
        let packet = player.as_packet();
        self.broadcast_to_players(out, &packet);
        let ghost raw = self.players@;
        self.players.insert(client_id, player);
        proof {
            let seated = pre.seated(client_id);
            assert(self.players@ == raw.push((client_id, player)));
            assert(self@.players =~= seated.players);
            assert(self@ == seated);
            lemma_push_new_key(pre.players, client_id, PlayerView::fresh(client_id, set_host));
            lemma_first_index(pre.players, pre.host_id);
            assert forall|j: int| 0 <= j < seated.players.len() implies {
                &&& (#[trigger] seated.players[j]).0 == seated.players[j].1.client_id
                &&& seated.players[j].1.is_host == (seated.players[j].0 == seated.host_id)
                &&& j < pre.players.len() ==> seated.players[j] == pre.players[j]
                &&& seated.players[j].1.points < seated.points_to_win || !(seated.state is Playing)
            } by {
                if j < pre.players.len() {
                    assert(seated.players[j] == pre.players[j]);
                }
            }
            assert(seated.wf());
        }
        let mut packets = self.player_packets();
        let mut settings = self.settings_as_packets();
        let ghost first = views_of(packets@);
        let ghost second = views_of(settings@);
        packets.append(&mut settings);
        assert(views_of(packets@) =~= first + second);
        let ghost mut rolls: Seq<int> = Seq::empty();
        match self.state {
            GameState::Playing(playing_state) => {
                let counts = self.response_counts();
                let (cards, Ghost(made)) = deal(
                    &mut self.available_responses,
                    &self.packs,
                    &counts,
                    HAND_SIZE,
                );
                proof {
                    rolls = made;
                }
                let czar = self.players.inner[self.czar_index].0;
                let ghost so_far = views_of(packets@);
                match &self.current_prompt {
                    Some(prompt) => {
                        packets.push(
                            ClientBoundPacket::NextRound {
                                czar,
                                prompt: prompt.clone(),
                                new_responses: cards,
                            },
                        );
                    },
                    None => {},
                }
                assert(views_of(packets@) =~= so_far.push(packets@.last()@));
                match playing_state {
                    PlayingState::CzarSelection => {
                        let ghost so_far = views_of(packets@);
                        packets.push(self.display_responses());
                        assert(views_of(packets@) =~= so_far.push(packets@.last()@));
                    },
                    PlayingState::PlayerSelection => {},
                }
            },
            _ => {},
        }
        proof {
            let hand = cards_dealt(pre.available_responses, pre.all_responses(), rolls);
            assert(views_of(packets@) =~= self@.join_burst(hand));
        }
        send_packets(out, client_id, packets);
        proof {
            let frames = broadcast_frames(
                pre.players,
                PlayerView::fresh(client_id, set_host).as_packet(),
            ).push(FrameView { to: client_id, packets: views_of(packets@) });
            assert(views_of(out@) =~= sent + frames);
            lemma_queued(sent, frames);
            assert(pre.join_made(client_id, rolls, self@, frames_since(sent, views_of(out@))));
        }
    }
}

impl GameView {
    /// Whether the player in seat `seat` is the czar of a round under way.
    pub open spec fn is_czar_seat(self, seat: int) -> bool {
        self.state is Playing && seat == self.czar_index
    }

    /// The game after the player `client_id` left their seat, where others stay: the
    /// first of those who stay is host if the host left, and the czar's seat number
    /// follows the czar. Where the czar left, it points at the seat before the one they
    /// left, so that the next round makes the player who sat after them czar.
    pub open spec fn vacated(self, client_id: ClientId) -> GameView {
        let seat = self.player_index(client_id);
        let rest = self.players.remove(seat);
        let promoted = self.players[seat].1.is_host;
        GameView {
            players: if promoted {
                rest.update(0, (rest[0].0, PlayerView { is_host: true, ..rest[0].1 }))
            } else {
                rest
            },
            host_id: if promoted {
                rest[0].0
            } else {
                self.host_id
            },
            czar_index: if self.state is Playing && seat <= self.czar_index {
                if self.czar_index == 0 {
                    rest.len() - 1
                } else {
                    self.czar_index - 1
                }
            } else {
                self.czar_index
            },
            ..self
        }
    }

    /// The frames that tell those who stay that `client_id` left, and who is host now if
    /// the host left.
    pub open spec fn leave_frames(self, client_id: ClientId) -> Seq<FrameView> {
        let post = self.vacated(client_id);
        broadcast_frames(
            post.players,
            ClientBoundView::RemovePlayer {
                id: client_id,
                new_host: if self.player(client_id).is_host {
                    Some(post.host_id)
                } else {
                    None
                },
            },
        )
    }

    /// Whether `post` and `frames` are what the czar's leaving makes of the game, with the
    /// random choices `rolls`: those who stay are told that the czar left and that the
    /// round is cancelled, and a new round is dealt.
    pub open spec fn czar_left(
        self,
        client_id: ClientId,
        rolls: RoundRolls,
        post: GameView,
        frames: Seq<FrameView>,
    ) -> bool {
        let vacated = self.vacated(client_id);
        let told = self.leave_frames(client_id) + broadcast_frames(
            vacated.players,
            ClientBoundView::CancelRound,
        );
        &&& frames.len() >= told.len()
        &&& frames.take(told.len() as int) == told
        &&& (GameView { current_prompt: None, ..vacated }).next_round_made(
            rolls,
            post,
            frames.skip(told.len() as int),
        )
    }

    /// What the disconnecting of a client comes to. Nothing where they do not play. The
    /// last player leaves the game over and deserted. Else the player is gone, those who
    /// stay are told, and if the czar of a round left, the round is cancelled and a new
    /// one is dealt, for some random choices.
    pub open spec fn disconnect_handled(
        self,
        client_id: ClientId,
        post: GameView,
        frames: Seq<FrameView>,
    ) -> bool {
        if !self.has_player(client_id) {
            post == self && frames.len() == 0
        } else if self.players.len() == 1 {
            &&& post == (GameView { players: Seq::empty(), state: GameState::End, ..self })
            &&& frames.len() == 0
        } else if self.is_czar_seat(self.player_index(client_id)) {
            exists|rolls: RoundRolls| #[trigger] self.czar_left(client_id, rolls, post, frames)
        } else {
            &&& post == self.vacated(client_id)
            &&& frames == self.leave_frames(client_id)
        }
    }

    /// Whether `sender` may leave for the lobby: the game is over, and the sender plays.
    pub open spec fn can_leave(self, sender: ClientId) -> bool {
        self.state == GameState::End && self.has_player(sender)
    }

    /// What a request to leave comes to: it is rejected and nothing changes unless the
    /// game is over and the sender plays; else the sender is gone, as if disconnected.
    pub open spec fn leave_handled(
        self,
        sender: ClientId,
        response: PacketResponseView,
        post: GameView,
        frames: Seq<FrameView>,
    ) -> bool {
        if self.can_leave(sender) {
            &&& response == PacketResponseView::Accepted
            &&& self.disconnect_handled(sender, post, frames)
        } else {
            &&& response == PacketResponseView::Rejected
            &&& post == self
            &&& frames.len() == 0
        }
    }
}

impl Game {
    /// Lets go of a client that left the game.
    ///
    /// The last player leaves the game over and deserted. Else the player is removed, the
    /// first of those who stay becomes host if the host left, and those who stay are
    /// told. If the czar of a round under way left, the round is cancelled and a new one
    /// starts, with the player who sat after the czar as czar.
    pub fn client_disconnected(&mut self, out: &mut Vec<Frame>, client_id: ClientId)
        requires
            old(self).wf(),
        ensures
            final(self).wf(),
            only_grew(views_of(old(out)@), views_of(final(out)@)),
            old(self)@.disconnect_handled(
                client_id,
                final(self)@,
                frames_since(views_of(old(out)@), views_of(final(out)@)),
            ),
    {
        let ghost pre = self@;
        let ghost sent = views_of(out@);
        proof {
            lemma_queued(sent, Seq::empty());
            assert(sent + Seq::<FrameView>::empty() =~= sent);
        }
        let seat = match self.player_position(client_id) {
            Some(seat) => seat,
            None => {
                return ;
            },
        };
        if self.players.len() == 1 {
            self.players.inner.remove(seat);
            self.state = GameState::End;
            assert(self@.players =~= Seq::empty());
            return ;
        }
        let playing = match self.state {
            GameState::Playing(_) => true,
            _ => false,
        };
        let czar_left = playing && seat == self.czar_index;
        let ghost raw = self.players@;
        let removed = self.players.inner.remove(seat);
        let ghost rest = pre.players.remove(seat as int);
        proof {
            assert(views_of(self.players@) =~= rest);
            lemma_remove_entry(pre.players, seat as int);
            lemma_first_index(pre.players, pre.host_id);
        }
        let new_host = if removed.1.is_host {
            let ghost raw = self.players@;
            let first = self.players.values_mut(0);
            first.is_host = true;
            assert(self.players@[0].0 == raw[0].0);
            let id = self.players.inner[0].0;
            self.host_id = id;
            Some(id)
        } else {
            None
        };
        if playing && seat <= self.czar_index {
            self.czar_index = if self.czar_index == 0 {
                self.players.len() - 1
            } else {
                self.czar_index - 1
            };
        }
        proof {
            let vacated = pre.vacated(client_id);
            assert(self@.players =~= vacated.players);
            assert(self@ == vacated);
            assert forall|j: int| 0 <= j < vacated.players.len() implies {
                &&& (#[trigger] vacated.players[j]).0 == vacated.players[j].1.client_id
                &&& vacated.players[j].1.is_host == (vacated.players[j].0 == vacated.host_id)
                &&& vacated.players[j].1.selections == rest[j].1.selections
                &&& vacated.players[j].1.points == rest[j].1.points
                &&& vacated.players[j].0 == rest[j].0
            } by {
                let j0 = if j < seat { j } else { j + 1 };
                assert(rest[j] == pre.players[j0]);
                if removed.1.is_host {
                    assert(pre.players[seat as int].0 == pre.host_id);
                    assert(rest[j].0 != pre.host_id);
                    if j != 0 {
                        assert(rest[j].0 != rest[0].0);
                    }
                }
            }
            assert forall|a: int, b: int| 0 <= a < b < vacated.players.len() implies (
            #[trigger] vacated.players[a]).0 != (#[trigger] vacated.players[b]).0 by {
                assert(rest[a].0 != rest[b].0);
            }
            if removed.1.is_host {
                lemma_first_index_at_most(vacated.players, vacated.host_id, 0);
            } else {
                assert(pre.host_id != client_id);
                assert(has_key(rest, pre.host_id));
                lemma_first_index(rest, pre.host_id);
                lemma_first_index_at_most(
                    vacated.players,
                    pre.host_id,
                    first_index(rest, pre.host_id),
                );
            }
            assert forall|j: int, k: int|
                0 <= j < vacated.players.len() && 0 <= k < vacated.players[j].1.selections.len()
                implies vacated.is_response(#[trigger] vacated.players[j].1.selections[k]) by {
                let j0 = if j < seat { j } else { j + 1 };
                assert(rest[j] == pre.players[j0]);
                assert(pre.is_response(pre.players[j0].1.selections[k]));
            }
            assert(vacated.core_wf());
        }
        self.broadcast_to_players(out, &ClientBoundPacket::RemovePlayer { id: client_id,
            new_host });
        let ghost told = views_of(out@);
        proof {
            lemma_first_index(pre.players, client_id);
            assert(told == sent + pre.leave_frames(client_id));
            lemma_queued(sent, pre.leave_frames(client_id));
        }
        if czar_left {
            self.broadcast_to_players(out, &ClientBoundPacket::CancelRound);
            self.current_prompt = None;
            let ghost cancelled = views_of(out@);
            proof {
                let vacated = pre.vacated(client_id);
                let ready = GameView { current_prompt: None, ..vacated };
                assert(self@ == ready);
                assert(ready.core_wf());
                assert forall|j: int| 0 <= j < ready.players.len() implies (
                #[trigger] ready.players[j]).1.points < ready.points_to_win by {
                    let j0 = if j < seat { j } else { j + 1 };
                    assert(rest[j] == pre.players[j0]);
                }
                assert(ready.all_responses() == pre.all_responses());
                assert(ready.round_ready());
            }
            let rolls = self.next_round(out);
            proof {
                let vacated = pre.vacated(client_id);
                let both = pre.leave_frames(client_id) + broadcast_frames(
                    vacated.players,
                    ClientBoundView::CancelRound,
                );
                assert(cancelled =~= sent + both);
                lemma_queued(sent, both);
                lemma_grew_twice(sent, cancelled, views_of(out@));
                let frames = frames_since(sent, views_of(out@));
                assert(frames.take(both.len() as int) =~= both);
                assert(frames.skip(both.len() as int) =~= frames_since(cancelled, views_of(out@)));
                assert(pre.czar_left(client_id, rolls@, self@, frames));
            }
        } else {
            proof {
                let vacated = pre.vacated(client_id);
                if playing {
                    assert forall|j: int| 0 <= j < vacated.players.len() implies (
                    #[trigger] vacated.players[j]).1.points < vacated.points_to_win by {
                        let j0 = if j < seat { j } else { j + 1 };
                        assert(rest[j] == pre.players[j0]);
                    }
                }
                if pre.state == GameState::WaitingToStart {
                    assert forall|j: int| 0 <= j < vacated.players.len() implies (
                    #[trigger] vacated.players[j]).1.selections.len() == 0 by {
                        let j0 = if j < seat { j } else { j + 1 };
                        assert(rest[j] == pre.players[j0]);
                    }
                }
                assert(vacated.wf());
            }
        }
    }

    /// Lets `sender` leave the game for the lobby, once the game is over.
    pub fn leave_game(
        &mut self,
        out: &mut Vec<Frame>,
        sender: ClientId,
    ) -> (response: PacketResponse)
        requires
            old(self).wf(),
        ensures
            final(self).wf(),
            only_grew(views_of(old(out)@), views_of(final(out)@)),
            old(self)@.leave_handled(
                sender,
                response@,
                final(self)@,
                frames_since(views_of(old(out)@), views_of(final(out)@)),
            ),
    {
        proof {
            lemma_queued(views_of(out@), Seq::empty());
            assert(views_of(out@) + Seq::<FrameView>::empty() =~= views_of(out@));
        }
        match self.state {
            GameState::End => {},
            _ => {
                return PacketResponse::Rejected;
            },
        }
        if self.player_position(sender).is_none() {
            return PacketResponse::Rejected;
        }
        self.client_disconnected(out, sender);
        PacketResponse::Accepted
    }
}

/// The last player's leaving leaves the game over and deserted, so that it can be
/// dropped.
pub proof fn lemma_last_player_leaves(
    game: GameView,
    client_id: ClientId,
    post: GameView,
    frames: Seq<FrameView>,
)
    requires
        game.wf(),
        game.has_player(client_id),
        game.players.len() == 1,
        game.disconnect_handled(client_id, post, frames),
    ensures
        post.state == GameState::End,
        post.players.len() == 0,
        post.is_terminated(),
        frames.len() == 0,
{
}

/// The czar's leaving in the middle of a round cancels the round and starts a new one,
/// in which the player who sat after the czar is czar: those who stay are told that the
/// czar left, then that the round is cancelled, then of the new round.
pub proof fn lemma_czar_leaves(
    game: GameView,
    client_id: ClientId,
    post: GameView,
    frames: Seq<FrameView>,
)
    requires
        game.wf(),
        game.state is Playing,
        game.players.len() > 1,
        client_id == game.czar_id(),
        game.disconnect_handled(client_id, post, frames),
    ensures
        post.state == GameState::Playing(PlayingState::PlayerSelection),
        post.players.len() == game.players.len() - 1,
        !post.has_player(client_id),
        post.czar_id() == game.players[(game.czar_index + 1) % (game.players.len() as int)].0,
        frames.len() == 3 * post.players.len(),
        forall|i: int|
            0 <= i < post.players.len() ==> {
                &&& (#[trigger] frames[i]).packets[0] is RemovePlayer
                &&& frames[post.players.len() + i].packets == seq![ClientBoundView::CancelRound]
                &&& frames[2 * post.players.len() + i].packets[0] is NextRound
            },
{
    let seat = game.czar_index;
    let n = game.players.len() as int;
    lemma_first_index_unique(game.players, client_id, seat);
    assert(game.is_czar_seat(game.player_index(client_id)));
    let rolls = choose|rolls: RoundRolls| #[trigger] game.czar_left(client_id, rolls, post, frames);
    let vacated = game.vacated(client_id);
    let rest = game.players.remove(seat);
    let cancelled = GameView { current_prompt: None, ..vacated };
    let told = game.leave_frames(client_id) + broadcast_frames(
        vacated.players,
        ClientBoundView::CancelRound,
    );
    let dealt = frames.skip(told.len() as int);
    assert(vacated.players.len() == n - 1);
    assert(cancelled.before_round().players.len() == n - 1);
    lemma_remove_entry(game.players, seat);
    assert forall|i: int| 0 <= i < n - 1 implies (#[trigger] post.players[i]).0 == rest[i].0 by {}
    // The seat of the new czar.
    let before = vacated.czar_index;
    assert(before == if seat == 0 { n - 2 } else { seat - 1 });
    let next = cancelled.next_czar();
    assert(next == (before + 1) % (n - 1));
    if seat == 0 || seat == n - 1 {
        vstd::arithmetic::div_mod::lemma_mod_self_0(n - 1);
        assert(next == 0);
        if seat == 0 {
            vstd::arithmetic::div_mod::lemma_small_mod(1, n as nat);
        } else {
            vstd::arithmetic::div_mod::lemma_mod_self_0(n);
        }
    } else {
        vstd::arithmetic::div_mod::lemma_small_mod(seat as nat, (n - 1) as nat);
        vstd::arithmetic::div_mod::lemma_small_mod((seat + 1) as nat, n as nat);
        assert(next == seat);
    }
    assert(post.czar_index == next);
    assert(rest[next] == game.players[(seat + 1) % n]);
    // Nobody who stays is the one who left.
    lemma_first_index(post.players, client_id);
    if post.has_player(client_id) {
        let at = post.player_index(client_id);
        assert(post.players[at].0 == rest[at].0);
        let at0 = if at < seat { at } else { at + 1 };
        assert(rest[at] == game.players[at0]);
    }
    // The frames.
    assert(frames =~= frames.take(told.len() as int) + dealt);
    assert(dealt == post.round_frames(rolls.hands, false));
    assert forall|i: int| 0 <= i < post.players.len() implies {
        &&& (#[trigger] frames[i]).packets[0] is RemovePlayer
        &&& frames[post.players.len() + i].packets == seq![ClientBoundView::CancelRound]
        &&& frames[2 * post.players.len() + i].packets[0] is NextRound
    } by {
        assert(frames[i] == told[i]);
        assert(frames[post.players.len() + i] == told[post.players.len() + i]);
        assert(frames[2 * post.players.len() + i] == dealt[i]);
    }
}

/// Whoever joins while the czar is choosing is told of the round under way: the last two
/// packets that they are sent are the round, with the prompt in play and a fresh hand,
/// and the submissions as the players were shown them.
pub proof fn lemma_join_during_czar_selection(
    game: GameView,
    client_id: ClientId,
    post: GameView,
    frames: Seq<FrameView>,
)
    requires
        game.wf(),
        game.state == GameState::Playing(PlayingState::CzarSelection),
        !game.has_player(client_id),
        game.connect_handled(client_id, post, frames),
    ensures
        post.state == game.state,
        post.has_player(client_id),
        frames.len() == game.players.len() + 1,
        frames.last().to == client_id,
        frames.last().packets.len() >= 2,
        frames.last().packets.last() == game.display_responses(),
        frames.last().packets[frames.last().packets.len() - 2] matches ClientBoundView::NextRound {
            czar,
            prompt,
            new_responses,
        } && czar == game.czar_id() && Some(prompt) == game.current_prompt && new_responses.len()
            == HAND_SIZE,
{
    let rolls = choose|rolls: Seq<int>| #[trigger] game.join_made(client_id, rolls, post, frames);
    let hand = cards_dealt(game.available_responses, game.all_responses(), rolls);
    crate::deck::lemma_cards_dealt_len(game.available_responses, game.all_responses(), rolls);
    let joiner = PlayerView::fresh(client_id, game.players.len() == 0);
    lemma_push_new_key(game.players, client_id, joiner);
    assert(post.players == game.players.push((client_id, joiner)));
    assert(post.czar_id() == game.czar_id()) by {
        assert(post.players[game.czar_index] == game.players[game.czar_index]);
    }
    // The joiner has submitted nothing, so the submissions are as they were shown.
    assert(post.players.drop_last() =~= game.players);
    assert(game.pick() >= 1);
    assert(submissions_of(post.players, post.packs, post.pick()) == submissions_of(
        game.players,
        game.packs,
        game.pick(),
    ));
    let burst = post.join_burst(hand);
    assert(frames.last().packets == burst);
    let body = player_packets(post.players) + post.settings_packets();
    assert(burst =~= body.push(
        ClientBoundView::NextRound {
            czar: post.czar_id(),
            prompt: post.current_prompt->Some_0,
            new_responses: response_data(post.packs, hand),
        },
    ).push(post.display_responses()));
}

} // verus!
