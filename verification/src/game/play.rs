//! Playing a round: taking a name, submitting responses, and naming the winner.

use vstd::prelude::*;
use vstd::string::StringExecFns;
use crate::cards::{CardID, PackView};
use crate::ids::{uuid_text, uuid_to_string, ClientId};
use crate::protocol::{
    frames_since, lemma_grew_twice, lemma_queued, only_grew, ClientBoundPacket, ClientBoundView,
    Frame, FrameView, PacketResponse, PacketResponseView,
};
use crate::seqs::views_of;
use crate::vec_map::{
    distinct_keys, first_index, lemma_first_index, lemma_first_index_unique, lemma_update_value,
};
use crate::game::{
    broadcast_frames, submissions_of, Game, GameState, GameView, PlayerView, PlayingState,
};
use crate::game::round::RoundRolls;

verus! {

impl GameView {
    /// What a request to take a name comes to: a player gets the name and every player
    /// is told; anybody else is rejected.
    pub open spec fn name_handled(
        self,
        sender: ClientId,
        name: Seq<char>,
        response: PacketResponseView,
        post: GameView,
        frames: Seq<FrameView>,
    ) -> bool {
        &&& post == self.renamed(sender, name)
        &&& frames == self.rename_frames(sender, name)
        &&& response == if self.has_player(sender) {
            PacketResponseView::Accepted
        } else {
            PacketResponseView::Rejected
        }
    }

}

impl GameView {
    /// What submitting a card comes to: it is rejected and nothing changes unless the
    /// sender may submit the card; else the card is theirs and the players are told what
    /// follows.
    pub open spec fn select_handled(
        self,
        sender: ClientId,
        card: CardID,
        response: PacketResponseView,
        post: GameView,
        frames: Seq<FrameView>,
    ) -> bool {
        if self.can_select(sender, card) {
            &&& response == PacketResponseView::Accepted
            &&& post == self.after_select(sender, card)
            &&& frames == self.select_frames(sender, card)
        } else {
            &&& response == PacketResponseView::Rejected
            &&& post == self
            &&& frames.len() == 0
        }
    }

}

impl GameView {
    /// What naming a round winner comes to: it is rejected and nothing changes unless the
    /// sender is the czar at the czar's turn and the winner submitted; else the winner
    /// scores and the players are told, and the game ends or, for some random choices,
    /// the next round is dealt.
    pub open spec fn judge_handled(
        self,
        sender: ClientId,
        winner: ClientId,
        response: PacketResponseView,
        post: GameView,
        frames: Seq<FrameView>,
    ) -> bool {
        if !self.can_judge(sender) {
            &&& response == PacketResponseView::Rejected
            &&& post == self
            &&& frames.len() == 0
        } else if !self.has_player(winner) {
            &&& response == PacketResponseView::RejectedWithReason(
                "Invalid player ID: "@ + uuid_text(winner),
            )
            &&& post == self
            &&& frames.len() == 0
        } else if !self.can_win(winner) {
            &&& response == PacketResponseView::Rejected
            &&& post == self
            &&& frames.len() == 0
        } else if self.wins_game(winner) {
            &&& response == PacketResponseView::Accepted
            &&& post == (GameView { state: GameState::End, ..self.scored(winner) })
            &&& frames == self.winner_frames(winner)
        } else {
            &&& response == PacketResponseView::Accepted
            &&& exists|rolls: RoundRolls| #[trigger] self.round_won(winner, rolls, post, frames)
        }
    }

}

impl GameView {
    /// The game with `player` in the seat at position `i`.
    pub open spec fn with_player(self, i: int, player: PlayerView) -> GameView {
        GameView { players: self.players.update(i, (self.players[i].0, player)), ..self }
    }

    /// The player `client_id`.
    pub open spec fn player(self, client_id: ClientId) -> PlayerView {
        self.players[self.player_index(client_id)].1
    }

    /// The game after `sender` took the name `name`.
    pub open spec fn renamed(self, sender: ClientId, name: Seq<char>) -> GameView {
        if self.has_player(sender) {
            self.with_player(
                self.player_index(sender),
                PlayerView { name, ..self.player(sender) },
            )
        } else {
            self
        }
    }

    /// The frames that tell the players that `sender` took the name `name`.
    pub open spec fn rename_frames(self, sender: ClientId, name: Seq<char>) -> Seq<FrameView> {
        if self.has_player(sender) {
            broadcast_frames(self.players, ClientBoundView::UpdatePlayerName { id: sender, name })
        } else {
            Seq::empty()
        }
    }

    /// Whether `sender` may submit `card` now: players are choosing, the sender plays and
    /// is not the czar, has not chosen as many cards as the prompt asks for, and the card
    /// is one of the game's response cards.
    pub open spec fn can_select(self, sender: ClientId, card: CardID) -> bool {
        &&& self.state == GameState::Playing(PlayingState::PlayerSelection)
        &&& self.has_player(sender)
        &&& sender != self.czar_id()
        &&& self.player(sender).selections.len() < self.pick()
        &&& self.is_response(card)
    }

    /// The game with `card` added to what `sender` has chosen.
    pub open spec fn picked(self, sender: ClientId, card: CardID) -> GameView {
        self.with_player(
            self.player_index(sender),
            PlayerView {
                selections: self.player(sender).selections.push(card),
                ..self.player(sender)
            },
        )
    }

    /// The game after `sender` submitted `card`: the card is theirs, and once every
    /// player but the czar has chosen, it is the czar's turn.
    pub open spec fn after_select(self, sender: ClientId, card: CardID) -> GameView {
        let picked = self.picked(sender, card);
        if picked.all_submitted() {
            GameView { state: GameState::Playing(PlayingState::CzarSelection), ..picked }
        } else {
            picked
        }
    }

    /// The frames that follow when `sender` submits `card`: every player learns that the
    /// sender has finished once they have, and sees the submissions once everybody has.
    pub open spec fn select_frames(self, sender: ClientId, card: CardID) -> Seq<FrameView> {
        let picked = self.picked(sender, card);
        (if picked.player(sender).selections.len() == self.pick() {
            broadcast_frames(self.players, ClientBoundView::PlayerFinishedPicking(sender))
        } else {
            Seq::empty()
        }) + (if picked.all_submitted() {
            broadcast_frames(self.players, picked.display_responses())
        } else {
            Seq::empty()
        })
    }

    /// Whether `sender` may name the round's winner now: it is the czar's turn, and the
    /// sender is the czar.
    pub open spec fn can_judge(self, sender: ClientId) -> bool {
        &&& self.state == GameState::Playing(PlayingState::CzarSelection)
        &&& sender == self.czar_id()
    }

    /// Whether `winner` can win the round: they play, are not the czar, and have
    /// submitted as many cards as the prompt asks for.
    pub open spec fn can_win(self, winner: ClientId) -> bool {
        &&& self.has_player(winner)
        &&& winner != self.czar_id()
        &&& self.player(winner).selections.len() == self.pick()
    }

    /// The game with one more point for `winner`.
    pub open spec fn scored(self, winner: ClientId) -> GameView {
        self.with_player(
            self.player_index(winner),
            PlayerView {
                points: (self.player(winner).points + 1) as u32,
                ..self.player(winner)
            },
        )
    }

    /// Whether one more point wins `winner` the game.
    pub open spec fn wins_game(self, winner: ClientId) -> bool {
        self.player(winner).points + 1 >= self.points_to_win
    }

    /// The frames that tell the players who won the round.
    pub open spec fn winner_frames(self, winner: ClientId) -> Seq<FrameView> {
        broadcast_frames(
            self.players,
            ClientBoundView::DisplayWinner { winner, end_game: self.wins_game(winner) },
        )
    }

    /// Whether `post` and `frames` are what a round win that does not end the game makes
    /// of it, with the random choices `rolls`: the winner scores, the players are told,
    /// and the next round is dealt.
    pub open spec fn round_won(
        self,
        winner: ClientId,
        rolls: RoundRolls,
        post: GameView,
        frames: Seq<FrameView>,
    ) -> bool {
        &&& frames.len() >= self.players.len()
        &&& frames.take(self.players.len() as int) == self.winner_frames(winner)
        &&& self.scored(winner).next_round_made(rolls, post, frames.skip(self.players.len() as int))
    }
}

/// Changing a player in their seat changes neither who plays nor in which order.
pub proof fn lemma_with_player(game: GameView, i: int, player: PlayerView)
    requires
        0 <= i < game.players.len(),
    ensures
        forall|key: ClientId| #[trigger]
            first_index(game.with_player(i, player).players, key) == first_index(game.players, key),
        distinct_keys(game.players) ==> distinct_keys(game.with_player(i, player).players),
        forall|packet: ClientBoundView| #[trigger]
            broadcast_frames(game.with_player(i, player).players, packet) == broadcast_frames(
                game.players,
                packet,
            ),
{
    lemma_update_value(game.players, i, player);
    assert forall|packet: ClientBoundView| #[trigger]
        broadcast_frames(game.with_player(i, player).players, packet) == broadcast_frames(
            game.players,
            packet,
        ) by {
        assert(broadcast_frames(game.with_player(i, player).players, packet) =~= broadcast_frames(
            game.players,
            packet,
        ));
    }
}

impl Game {
    /// Sets the name of player `sender` and tells every player of it. A sender who does
    /// not play is rejected.
    pub fn set_player_name(
        &mut self,
        out: &mut Vec<Frame>,
        sender: ClientId,
        name: &str,
    ) -> (response: PacketResponse)
        requires
            old(self).wf(),
        ensures
            final(self).wf(),
            only_grew(views_of(old(out)@), views_of(final(out)@)),
            old(self)@.name_handled(
                sender,
                name@,
                response@,
                final(self)@,
                frames_since(views_of(old(out)@), views_of(final(out)@)),
            ),
    {
        let ghost pre = self@;
        match self.player_position(sender) {
            Some(i) => {
                let ghost raw = self.players@;
                let player = self.players.values_mut(i);
                player.name = name.to_owned();
                proof {
                    let after = pre.renamed(sender, name@);
                    assert(self.players@[i as int].0 == raw[i as int].0);
                    assert(self@.players =~= after.players);
                    lemma_with_player(pre, i as int, after.players[i as int].1);
                    assert forall|j: int| 0 <= j < after.players.len() implies {
                        &&& (#[trigger] after.players[j]).0 == after.players[j].1.client_id
                        &&& after.players[j].1.is_host == (after.players[j].0 == after.host_id)
                        &&& after.players[j].1.selections == pre.players[j].1.selections
                        &&& after.players[j].1.points == pre.players[j].1.points
                    } by {
                        assert(after.players[j].0 == pre.players[j].0);
                    }
                    assert(after.wf());
                }
                self.broadcast_to_players(
                    out,
                    &ClientBoundPacket::UpdatePlayerName { id: sender, name: name.to_owned() },
                );
                proof {
                    lemma_queued(views_of(old(out)@), pre.rename_frames(sender, name@));
                }
                PacketResponse::Accepted
            },
            None => {
                proof {
                    lemma_queued(views_of(old(out)@), Seq::empty());
                    assert(views_of(old(out)@) + Seq::<FrameView>::empty() =~= views_of(old(out)@));
                }
                PacketResponse::Rejected
            },
        }
    }
}

impl Game {
    /// Whether every player but the czar has chosen as many cards as the prompt asks for.
    pub(crate) fn all_submitted(&self) -> (done: bool)
        ensures
            done == self@.all_submitted(),
    {
        let pick: usize = match &self.current_prompt {
            Some(prompt) => prompt.pick as usize,
            None => 0,
        };
        let mut i: usize = 0;
        while i < self.players.len()
            invariant
                i <= self.players.len(),
                pick == self@.pick(),
                forall|j: int|
                    0 <= j < i ==> j == self@.czar_index || (
                    #[trigger] self@.players[j]).1.selections.len() == pick,
            decreases self.players.len() - i,
        {
            if i != self.czar_index && self.players.inner[i].1.selections.len() != pick {
                assert(self@.players[i as int].1.selections.len() != pick);
                return false;
            }
            i += 1;
        }
        true
    }

    /// Submits `card` as one of `sender`'s responses to the current prompt.
    ///
    /// Rejected unless players are choosing, the sender plays and is not the czar, has
    /// not yet chosen as many cards as the prompt asks for, and the card is one of the
    /// game's response cards. Once the sender has chosen enough, every player is told;
    /// once every player but the czar has, the submissions are shown and it is the czar's
    /// turn.
    pub fn select_response(
        &mut self,
        out: &mut Vec<Frame>,
        sender: ClientId,
        card: CardID,
    ) -> (response: PacketResponse)
        requires
            old(self).wf(),
        ensures
            final(self).wf(),
            only_grew(views_of(old(out)@), views_of(final(out)@)),
            old(self)@.select_handled(
                sender,
                card,
                response@,
                final(self)@,
                frames_since(views_of(old(out)@), views_of(final(out)@)),
            ),
    {
        let ghost pre = self@;
        let ghost sent = views_of(out@);
        proof {
            lemma_queued(sent, Seq::empty());
            assert(sent + Seq::<FrameView>::empty() =~= sent);
        }
        match self.state {
            GameState::Playing(PlayingState::PlayerSelection) => {},
            _ => {
                return PacketResponse::Rejected;
            },
        }
        let pick: usize = match &self.current_prompt {
            Some(prompt) => prompt.pick as usize,
            None => 0,
        };
        let seat = match self.player_position(sender) {
            Some(seat) => seat,
            None => {
                return PacketResponse::Rejected;
            },
        };
        proof {
            lemma_first_index(pre.players, sender);
            lemma_first_index(pre.players, pre.czar_id());
            lemma_first_index_unique(pre.players, pre.czar_id(), pre.czar_index);
        }
        if seat == self.czar_index || self.players.inner[seat].1.selections.len() >= pick {
            return PacketResponse::Rejected;
        }
        if card.pack_number >= self.packs.len()
            || card.card_number >= self.packs[card.pack_number].responses.len() {
            return PacketResponse::Rejected;
        }
        assert(pre.can_select(sender, card));
        let ghost raw = self.players@;
        let player = self.players.values_mut(seat);
        player.selections.push(card);
        let finished = player.selections.len() == pick;
        proof {
            let picked = pre.picked(sender, card);
            assert(self.players@[seat as int].0 == raw[seat as int].0);
            assert(self@.players =~= picked.players);
            assert(self@ == picked);
            lemma_with_player(pre, seat as int, picked.players[seat as int].1);
            assert forall|j: int| 0 <= j < picked.players.len() implies {
                &&& (#[trigger] picked.players[j]).0 == picked.players[j].1.client_id
                &&& picked.players[j].1.is_host == (picked.players[j].0 == picked.host_id)
                &&& picked.players[j].1.points == pre.players[j].1.points
                &&& forall|k: int|
                    0 <= k < picked.players[j].1.selections.len() ==> picked.is_response(
                        #[trigger] picked.players[j].1.selections[k],
                    )
            } by {
                assert(picked.players[j].0 == pre.players[j].0);
                if j != seat {
                    assert(picked.players[j] == pre.players[j]);
                } else {
                    assert forall|k: int|
                        0 <= k < picked.players[j].1.selections.len() implies picked.is_response(
                        #[trigger] picked.players[j].1.selections[k],
                    ) by {
                        if k < pre.players[j].1.selections.len() {
                            assert(picked.players[j].1.selections[k]
                                == pre.players[j].1.selections[k]);
                        }
                    }
                }
            }
            assert(picked.wf());
            assert(picked.player(sender) == picked.players[seat as int].1);
        }
        if finished {
            self.broadcast_to_players(out, &ClientBoundPacket::PlayerFinishedPicking(sender));
        }
        let done = self.all_submitted();
        if done {
            let shown = self.display_responses();
            self.broadcast_to_players(out, &shown);
            self.state = GameState::Playing(PlayingState::CzarSelection);
        }
        proof {
            assert(views_of(out@) =~= sent + pre.select_frames(sender, card));
            lemma_queued(sent, pre.select_frames(sender, card));
        }
        PacketResponse::Accepted
    }

    /// Names `winner` the winner of the round. Only the czar may, once the submissions
    /// are shown, and only a player who submitted can win.
    ///
    /// The winner scores a point and every player is told. With the points to win, the
    /// game ends; else the next round starts.
    pub fn select_round_winner(
        &mut self,
        out: &mut Vec<Frame>,
        sender: ClientId,
        winner: ClientId,
    ) -> (response: PacketResponse)
        requires
            old(self).wf(),
        ensures
            final(self).wf(),
            only_grew(views_of(old(out)@), views_of(final(out)@)),
            old(self)@.judge_handled(
                sender,
                winner,
                response@,
                final(self)@,
                frames_since(views_of(old(out)@), views_of(final(out)@)),
            ),
    {
        let ghost pre = self@;
        let ghost sent = views_of(out@);
        proof {
            lemma_queued(sent, Seq::empty());
            assert(sent + Seq::<FrameView>::empty() =~= sent);
        }
        match self.state {
            GameState::Playing(PlayingState::CzarSelection) => {},
            _ => {
                return PacketResponse::Rejected;
            },
        }
        if sender != self.players.inner[self.czar_index].0 {
            return PacketResponse::Rejected;
        }
        let pick: usize = match &self.current_prompt {
            Some(prompt) => prompt.pick as usize,
            None => 0,
        };
        let seat = match self.player_position(winner) {
            Some(seat) => seat,
            None => {
                let reason = String::from_str("Invalid player ID: ").concat(
                    uuid_to_string(winner).as_str(),
                );
                return PacketResponse::RejectedWithReason(reason);
            },
        };
        proof {
            lemma_first_index(pre.players, winner);
            lemma_first_index_unique(pre.players, pre.czar_id(), pre.czar_index);
        }
        if seat == self.czar_index || self.players.inner[seat].1.selections.len() != pick {
            return PacketResponse::Rejected;
        }
        assert(pre.can_win(winner));
        let ghost raw = self.players@;
        let player = self.players.values_mut(seat);
        player.points = player.points + 1;
        let end_game = player.points >= self.points_to_win;
        proof {
            let scored = pre.scored(winner);
            assert(self.players@[seat as int].0 == raw[seat as int].0);
            assert(self@.players =~= scored.players);
            assert(self@ == scored);
            lemma_with_player(pre, seat as int, scored.players[seat as int].1);
            assert forall|j: int| 0 <= j < scored.players.len() implies {
                &&& (#[trigger] scored.players[j]).0 == scored.players[j].1.client_id
                &&& scored.players[j].1.is_host == (scored.players[j].0 == scored.host_id)
                &&& scored.players[j].1.selections == pre.players[j].1.selections
                &&& j != seat ==> scored.players[j].1.points == pre.players[j].1.points
            } by {
                assert(scored.players[j].0 == pre.players[j].0);
            }
            assert(scored.core_wf());
        }
        self.broadcast_to_players(out, &ClientBoundPacket::DisplayWinner { winner, end_game });
        let ghost told = views_of(out@);
        proof {
            lemma_queued(sent, pre.winner_frames(winner));
        }
        if end_game {
            self.state = GameState::End;
        } else {
            proof {
                let scored = pre.scored(winner);
                assert forall|j: int| 0 <= j < scored.players.len() implies (
                #[trigger] scored.players[j]).1.points < scored.points_to_win by {
                    if j != seat {
                        assert(scored.players[j].1.points == pre.players[j].1.points);
                    }
                }
                assert(scored.round_ready());
            }
            let rolls = self.next_round(out);
            proof {
                lemma_grew_twice(sent, told, views_of(out@));
                let frames = frames_since(sent, views_of(out@));
                let n = pre.players.len() as int;
                assert(frames_since(sent, told).len() == n);
                assert(frames.take(n) =~= pre.winner_frames(winner));
                assert(frames.skip(n) =~= frames_since(told, views_of(out@)));
                assert(pre.round_won(winner, rolls@, self@, frames));
            }
        }
        PacketResponse::Accepted
    }
}

/// While a round is under way, the czar is one of the players.
pub proof fn lemma_czar_is_player(game: GameView)
    requires
        game.wf(),
        game.state is Playing,
    ensures
        0 <= game.czar_index < game.players.len(),
        game.has_player(game.czar_id()),
        game.player_index(game.czar_id()) == game.czar_index,
{
    lemma_first_index_unique(game.players, game.czar_id(), game.czar_index);
}

/// Taking a name twice is taking it once: the second request is answered like the first,
/// tells the players the same, and leaves the game as the first left it.
pub proof fn lemma_rename_twice(
    game: GameView,
    sender: ClientId,
    name: Seq<char>,
    first_response: PacketResponseView,
    once: GameView,
    first_frames: Seq<FrameView>,
    second_response: PacketResponseView,
    twice: GameView,
    second_frames: Seq<FrameView>,
)
    requires
        game.wf(),
        game.name_handled(sender, name, first_response, once, first_frames),
        once.name_handled(sender, name, second_response, twice, second_frames),
    ensures
        twice == once,
        second_response == first_response,
        second_frames == first_frames,
        game.has_player(sender) ==> {
            &&& first_response == PacketResponseView::Accepted
            &&& twice.player(sender).name == name
            &&& first_frames == broadcast_frames(
                game.players,
                ClientBoundView::UpdatePlayerName { id: sender, name },
            )
        },
{
    if game.has_player(sender) {
        let seat = game.player_index(sender);
        lemma_first_index(game.players, sender);
        lemma_with_player(game, seat, once.players[seat].1);
        assert(once.players[seat].0 == sender);
        assert(once.has_player(sender));
        assert(twice.players =~= once.players);
    }
}

/// A game that one point wins is over after its first round: the czar's verdict, once it
/// is accepted, ends the game.
pub proof fn lemma_one_point_game_ends(
    game: GameView,
    sender: ClientId,
    winner: ClientId,
    response: PacketResponseView,
    post: GameView,
    frames: Seq<FrameView>,
)
    requires
        game.wf(),
        game.points_to_win == 1,
        game.judge_handled(sender, winner, response, post, frames),
        response == PacketResponseView::Accepted,
    ensures
        post.state == GameState::End,
        post.player(winner).points == 1,
        frames == broadcast_frames(
            game.players,
            ClientBoundView::DisplayWinner { winner, end_game: true },
        ),
{
    let seat = game.player_index(winner);
    lemma_first_index(game.players, winner);
    assert(game.players[seat].1.points < game.points_to_win);
    assert(game.wins_game(winner));
    lemma_with_player(game, seat, game.scored(winner).players[seat].1);
    assert(post.player_index(winner) == seat);
}

/// Whether `client_id` is a player of `players` who has chosen exactly `pick` cards.
pub open spec fn has_submitted(
    players: Seq<(ClientId, PlayerView)>,
    pick: int,
    client_id: ClientId,
) -> bool {
    exists|i: int|
        0 <= i < players.len() && (#[trigger] players[i]).0 == client_id
            && players[i].1.selections.len() == pick
}

/// Every submission is that of a player who has chosen as many cards as the prompt asks
/// for.
pub proof fn lemma_submissions(
    players: Seq<(ClientId, PlayerView)>,
    packs: Seq<PackView>,
    pick: int,
)
    ensures
        forall|k: int|
            0 <= k < submissions_of(players, packs, pick).len() ==> has_submitted(
                players,
                pick,
                (#[trigger] submissions_of(players, packs, pick)[k]).player,
            ),
    decreases players.len(),
{
    if players.len() > 0 {
        let front = players.drop_last();
        let shown = submissions_of(players, packs, pick);
        let rest = submissions_of(front, packs, pick);
        lemma_submissions(front, packs, pick);
        assert forall|k: int| 0 <= k < shown.len() implies has_submitted(
            players,
            pick,
            (#[trigger] shown[k]).player,
        ) by {
            if k < rest.len() {
                assert(shown[k] == rest[k]);
                assert(has_submitted(front, pick, rest[k].player));
                let i = choose|i: int|
                    0 <= i < front.len() && (#[trigger] front[i]).0 == rest[k].player
                        && front[i].1.selections.len() == pick;
                assert(players[i] == front[i]);
            } else {
                assert(players[players.len() - 1].0 == shown[k].player);
            }
        }
    }
}

/// The submissions that are shown never list the czar, who submits nothing.
pub proof fn lemma_czar_is_not_shown(game: GameView)
    requires
        game.wf(),
        game.state is Playing,
    ensures
        game.display_responses() matches ClientBoundView::DisplayResponses(shown)
            && forall|k: int|
            0 <= k < shown.len() ==> (#[trigger] shown[k]).player != game.czar_id(),
{
    let shown = submissions_of(game.players, game.packs, game.pick());
    lemma_submissions(game.players, game.packs, game.pick());
    assert forall|k: int| 0 <= k < shown.len() implies (#[trigger] shown[k]).player
        != game.czar_id() by {
        assert(has_submitted(game.players, game.pick(), shown[k].player));
        let i = choose|i: int|
            0 <= i < game.players.len() && (#[trigger] game.players[i]).0 == shown[k].player
                && game.players[i].1.selections.len() == game.pick();
        if shown[k].player == game.czar_id() {
            lemma_first_index_unique(game.players, game.czar_id(), i);
            lemma_first_index_unique(game.players, game.czar_id(), game.czar_index);
        }
    }
}

} // verus!
