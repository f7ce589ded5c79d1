//! Dealing a round: drawing the prompt, dealing the hands, and starting a game.

use vstd::prelude::*;
use std::rc::Rc;
use crate::cards::{CardID, Pack, PromptView, MAX_PICK, MIN_PICK};
use crate::deck::{
    card_drawn, cards_dealt, full_deck, full_deck_of, lemma_cards_dealt_len, lemma_deal_concat,
    pool_after_deal, pool_after_draw, roll_fits, rolls_fit,
};
use crate::ids::ClientId;
use crate::protocol::{
    frames_since, lemma_queued, only_grew, send_packets, ClientBoundPacket, ClientBoundView,
    Frame, FrameView, PacketResponse, PacketResponseView, ResponseData, ResponseDataView,
};
use crate::rng::random_index;
use crate::seqs::views_of;
use crate::vec_map::{distinct_keys, first_index, lemma_first_index};
use crate::game::{
    Game, GameState, GameView, HAND_SIZE, PlayerView, PlayingState, prompt_at, prompt_counts,
    response_counts, response_data,
};

verus! {

/// The hands `hands`, one after the other, as one run of cards.
pub open spec fn concat_hands(hands: Seq<Seq<CardID>>) -> Seq<CardID>
    decreases hands.len(),
{
    if hands.len() == 0 {
        Seq::empty()
    } else {
        concat_hands(hands.drop_last()) + hands.last()
    }
}

/// How many cards the player at position `i` is dealt when every player but the one at
/// `skip` is dealt `count`.
pub open spec fn hand_size(i: int, skip: Option<usize>, count: usize) -> int {
    if skip == Some(i as usize) {
        0
    } else {
        count as int
    }
}

/// The random choices of one deal of a round: the roll that draws the prompt, the rolls
/// that draw the responses, and the hand that each player is dealt, in the players'
/// order.
pub struct RoundRolls {
    pub prompt: int,
    pub responses: Seq<int>,
    pub hands: Seq<Seq<CardID>>,
}

impl GameView {
    /// The invariant of a game, but for what depends on where the game stands.
    pub open spec fn core_wf(self) -> bool {
        (GameView { state: GameState::End, ..self }).wf()
    }

    /// Whether a round can be dealt: there are players, prompts and responses, and no
    /// player has the points to win yet.
    pub open spec fn round_ready(self) -> bool {
        &&& self.core_wf()
        &&& self.players.len() > 0
        &&& self.all_responses().len() > 0
        &&& self.all_prompts().len() > 0
        &&& forall|i: int|
            0 <= i < self.players.len() ==> (#[trigger] self.players[i]).1.points
                < self.points_to_win
    }

    /// The game after a round was dealt with the random choices `rolls` and the player at
    /// `czar` was made czar.
    pub open spec fn after_deal(self, czar: int, rolls: RoundRolls) -> GameView {
        GameView {
            state: GameState::Playing(PlayingState::PlayerSelection),
            czar_index: czar,
            current_prompt: Some(
                prompt_at(
                    self.packs,
                    card_drawn(self.available_prompts, self.all_prompts(), rolls.prompt),
                ),
            ),
            available_prompts: pool_after_draw(
                self.available_prompts,
                self.all_prompts(),
                rolls.prompt,
            ),
            available_responses: pool_after_deal(
                self.available_responses,
                self.all_responses(),
                rolls.responses,
            ),
            ..self
        }
    }

    /// Whether `rolls` are random choices that a deal can make, where every player but
    /// the one at `skip` is dealt `count` responses.
    pub open spec fn can_deal(self, skip: Option<usize>, count: usize, rolls: RoundRolls) -> bool {
        &&& roll_fits(self.available_prompts, self.all_prompts(), rolls.prompt)
        &&& rolls_fit(self.available_responses, self.all_responses(), rolls.responses)
        &&& rolls.hands.len() == self.players.len()
        &&& forall|i: int|
            0 <= i < rolls.hands.len() ==> (#[trigger] rolls.hands[i]).len() == hand_size(
                i,
                skip,
                count,
            )
        &&& concat_hands(rolls.hands) == cards_dealt(
            self.available_responses,
            self.all_responses(),
            rolls.responses,
        )
    }

    /// The frames that tell the players of the round that was just dealt: for each player
    /// the czar, the prompt and the hand they were dealt, after a `StartGame` where the
    /// round opens a game.
    pub open spec fn round_frames(self, hands: Seq<Seq<CardID>>, start: bool) -> Seq<FrameView> {
        Seq::new(
            self.players.len(),
            |i: int|
                round_frame(
                    self.players[i].0,
                    self.czar_id(),
                    self.current_prompt->Some_0,
                    response_data(self.packs, hands[i]),
                    start,
                ),
        )
    }
}

/// The frame that tells the player `to` of a round: the czar, the prompt and the hand
/// they were dealt, after a `StartGame` where the round opens a game.
pub open spec fn round_frame(
    to: ClientId,
    czar: ClientId,
    prompt: PromptView,
    new_responses: Seq<ResponseDataView>,
    start: bool,
) -> FrameView {
    FrameView {
        to,
        packets: (if start {
            seq![ClientBoundView::StartGame]
        } else {
            Seq::empty()
        }).push(ClientBoundView::NextRound { czar, prompt, new_responses }),
    }
}

/// Deals `count` response cards from `pool`. Returns the cards as they are sent to a
/// client and, for the proofs of its callers, the rolls that chose them.
pub(crate) fn deal(
    pool: &mut Vec<CardID>,
    packs: &Vec<Rc<Pack>>,
    counts: &Vec<usize>,
    count: usize,
) -> (dealt: (Vec<ResponseData>, Ghost<Seq<int>>))
    requires
        counts@ == response_counts(views_of(packs@)),
        full_deck(counts@).len() > 0,
        crate::deck::pool_in_order(old(pool)@, counts@),
    ensures
        dealt.1@.len() == count,
        rolls_fit(old(pool)@, full_deck(counts@), dealt.1@),
        final(pool)@ == pool_after_deal(old(pool)@, full_deck(counts@), dealt.1@),
        views_of(dealt.0@) == response_data(
            views_of(packs@),
            cards_dealt(old(pool)@, full_deck(counts@), dealt.1@),
        ),
        crate::deck::pool_in_order(final(pool)@, counts@),
{
    let ghost full = full_deck(counts@);
    let ghost start = pool@;
    let ghost mut rolls: Seq<int> = Seq::empty();
    let mut cards: Vec<ResponseData> = Vec::new();
    let mut k: usize = 0;
    assert(views_of(cards@) =~= response_data(views_of(packs@), cards_dealt(start, full, rolls)));
    while k < count
        invariant
            k <= count,
            full == full_deck(counts@),
            counts@ == response_counts(views_of(packs@)),
            full.len() > 0,
            rolls.len() == k,
            rolls_fit(start, full, rolls),
            pool@ == pool_after_deal(start, full, rolls),
            views_of(cards@) == response_data(views_of(packs@), cards_dealt(start, full, rolls)),
            crate::deck::pool_in_order(pool@, counts@),
        decreases count - k,
    {
        let ghost before = views_of(cards@);
        let (card, Ghost(roll)) = crate::deck::draw(pool, counts);
        let text = packs[card.pack_number].responses[card.card_number].clone();
        cards.push(ResponseData::new(card, text));
        proof {
            let longer = rolls.push(roll);
            assert(longer.drop_last() =~= rolls);
            assert(views_of(cards@) =~= before.push(cards@.last()@));
            lemma_cards_dealt_len(start, full, rolls);
            assert(views_of(cards@) =~= response_data(
                views_of(packs@),
                cards_dealt(start, full, longer),
            ));
            rolls = longer;
        }
        k += 1;
    }
    (cards, Ghost(rolls))
}

impl Game {
    /// Deals a round: makes the player at `czar_index` czar, draws a prompt, deals `count`
    /// responses to every player but the one at `skip`, and tells each player of the
    /// round. Returns, for the proofs of its callers, the random choices it made.
    pub(crate) fn deal_round(
        &mut self,
        out: &mut Vec<Frame>,
        czar_index: usize,
        skip: Option<usize>,
        count: usize,
        start: bool,
    ) -> (rolls: Ghost<RoundRolls>)
        requires
            old(self)@.round_ready(),
            czar_index < old(self)@.players.len(),
            old(self)@.players[czar_index as int].1.selections.len() == 0,
        ensures
            old(self)@.can_deal(skip, count, rolls@),
            final(self)@ == old(self)@.after_deal(czar_index as int, rolls@),
            final(self).wf(),
            views_of(final(out)@) == views_of(old(out)@) + final(self)@.round_frames(
                rolls@.hands,
                start,
            ),
    {
        let ghost pre = self@;
        let ghost sent = views_of(out@);
        let prompt_counts = self.prompt_counts();
        let (prompt_card, Ghost(prompt_roll)) = crate::deck::draw(
            &mut self.available_prompts,
            &prompt_counts,
        );
        let prompt = self.packs[prompt_card.pack_number].prompts[prompt_card.card_number].clone();
        assert(prompt@ == prompt_at(pre.packs, prompt_card));
        assert(pre.packs[prompt_card.pack_number as int].picks_in_range());
        assert(MIN_PICK <= prompt@.pick <= MAX_PICK);
        let counts = self.response_counts();
        let czar_id = self.players.inner[czar_index].0;
        let ghost full = pre.all_responses();
        let ghost mut rolls: Seq<int> = Seq::empty();
        let ghost mut hands: Seq<Seq<CardID>> = Seq::empty();
        let mut i: usize = 0;
        assert(views_of(out@) =~= sent + Seq::new(
            0,
            |j: int|
                round_frame(
                    pre.players[j].0,
                    czar_id,
                    prompt@,
                    response_data(pre.packs, hands[j]),
                    start,
                ),
        ));
        while i < self.players.len()
            invariant
                i <= self.players.len(),
                pre.round_ready(),
                full == pre.all_responses(),
                counts@ == response_counts(pre.packs),
                self@ == (GameView {
                    available_prompts: pool_after_draw(
                        pre.available_prompts,
                        pre.all_prompts(),
                        prompt_roll,
                    ),
                    available_responses: pool_after_deal(pre.available_responses, full, rolls),
                    ..pre
                }),
                crate::deck::pool_in_order(self.available_responses@, counts@),
                rolls_fit(pre.available_responses, full, rolls),
                hands.len() == i,
                forall|j: int| 0 <= j < i
                    ==> (#[trigger] hands[j]).len() == hand_size(j, skip, count),
                concat_hands(hands) == cards_dealt(pre.available_responses, full, rolls),
                views_of(out@) == sent + Seq::new(
                    i as nat,
                    |j: int|
                        round_frame(
                            pre.players[j].0,
                            czar_id,
                            prompt@,
                            response_data(pre.packs, hands[j]),
                            start,
                        ),
                ),
            decreases self.players.len() - i,
        {
            let size: usize = if skip == Some(i) { 0 } else { count };
            let ghost pool = self.available_responses@;
            let (cards, Ghost(more)) = deal(&mut self.available_responses, &self.packs, &counts,
                size);
            let mut packets: Vec<ClientBoundPacket> = Vec::new();
            if start {
                packets.push(ClientBoundPacket::StartGame);
            }
            packets.push(
                ClientBoundPacket::NextRound { czar: czar_id, prompt: prompt.clone(),
                    new_responses: cards },
            );
            send_packets(out, self.players.inner[i].0, packets);
            proof {
                let hand = cards_dealt(pool, full, more);
                lemma_deal_concat(pre.available_responses, full, rolls, more);
                lemma_cards_dealt_len(pool, full, more);
                let longer = hands.push(hand);
                assert(longer.drop_last() =~= hands);
                assert(views_of(packets@) =~= round_frame(
                    pre.players[i as int].0,
                    czar_id,
                    prompt@,
                    response_data(pre.packs, hand),
                    start,
                ).packets);
                assert(views_of(out@) =~= sent + Seq::new(
                    (i + 1) as nat,
                    |j: int|
                        round_frame(
                            pre.players[j].0,
                            czar_id,
                            prompt@,
                            response_data(pre.packs, longer[j]),
                            start,
                        ),
                ));
                hands = longer;
                rolls = rolls + more;
            }
            i += 1;
        }
        self.czar_index = czar_index;
        self.current_prompt = Some(prompt);
        self.state = GameState::Playing(PlayingState::PlayerSelection);
        let ghost made = RoundRolls { prompt: prompt_roll, responses: rolls, hands };
        proof {
            assert(self@ == pre.after_deal(czar_index as int, made));
            assert(views_of(out@) =~= sent + self@.round_frames(hands, start));
        }
        Ghost(made)
    }
}

/// The players with their selections cleared and, where `points_too`, their points set
/// back to zero.
pub open spec fn reset_players(players: Seq<(ClientId, PlayerView)>, points_too: bool)
    -> Seq<(ClientId, PlayerView)> {
    Seq::new(
        players.len(),
        |i: int|
            (
                players[i].0,
                PlayerView {
                    selections: Seq::empty(),
                    points: if points_too {
                        0
                    } else {
                        players[i].1.points
                    },
                    ..players[i].1
                },
            ),
    )
}

/// Resetting players changes neither who plays nor in which order.
pub proof fn lemma_reset_players_keys(players: Seq<(ClientId, PlayerView)>, points_too: bool)
    ensures
        forall|key: ClientId| #[trigger]
            first_index(reset_players(players, points_too), key) == first_index(players, key),
        distinct_keys(players) ==> distinct_keys(reset_players(players, points_too)),
{
    let out = reset_players(players, points_too);
    assert forall|key: ClientId| #[trigger] first_index(out, key) == first_index(players, key) by {
        lemma_first_index(players, key);
        lemma_first_index(out, key);
        let a = first_index(players, key);
        let b = first_index(out, key);
        if a < b {
            assert(out[a].0 == players[a].0);
        }
        if b < a {
            assert(out[b].0 == players[b].0);
        }
    }
    if distinct_keys(players) {
        assert forall|a: int, b: int| 0 <= a < b < out.len() implies (#[trigger] out[a]).0 != (
        #[trigger] out[b]).0 by {
            assert(out[a].0 == players[a].0);
            assert(out[b].0 == players[b].0);
        }
    }
}

impl GameView {
    /// The game as the next round finds it: every player's selections cleared.
    pub open spec fn before_round(self) -> GameView {
        GameView { players: reset_players(self.players, false), ..self }
    }

    /// The position of the czar of the next round: the player after the czar, and the
    /// first player after the last.
    pub open spec fn next_czar(self) -> int {
        (self.czar_index + 1) % (self.players.len() as int)
    }

    /// Whether `post` and `frames` are what the next round makes of the game, with the
    /// random choices `rolls`: selections are cleared, the czar's seat moves on, a prompt
    /// is drawn, and every player but the last czar is dealt as many responses as the
    /// last prompt asked for.
    pub open spec fn next_round_made(
        self,
        rolls: RoundRolls,
        post: GameView,
        frames: Seq<FrameView>,
    ) -> bool {
        &&& self.before_round().can_deal(Some(self.czar_index as usize), self.pick() as usize,
            rolls)
        &&& post == self.before_round().after_deal(self.next_czar(), rolls)
        &&& frames == post.round_frames(rolls.hands, false)
    }

}

impl GameView {
    /// Whether `sender` may start the game: the game waits to start or is over, and the
    /// sender is its host.
    pub open spec fn can_start(self, sender: ClientId) -> bool {
        &&& self.state == GameState::WaitingToStart || self.state == GameState::End
        &&& self.has_player(sender)
        &&& sender == self.host_id
    }

    /// Whether the game's packs hold a prompt and a response.
    pub open spec fn has_cards(self) -> bool {
        self.all_responses().len() > 0 && self.all_prompts().len() > 0
    }

    /// The game as its first round finds it: points and selections are set back, and the
    /// pools are empty, so that the first draws fill them with the full decks.
    pub open spec fn before_start(self) -> GameView {
        GameView {
            players: reset_players(self.players, true),
            available_prompts: Seq::empty(),
            available_responses: Seq::empty(),
            ..self
        }
    }

    /// Whether `post` and `frames` are what starting makes of the game, with the player
    /// at `czar` as first czar and the random choices `rolls`: a prompt is drawn and every
    /// player is dealt a hand.
    pub open spec fn start_made(
        self,
        czar: int,
        rolls: RoundRolls,
        post: GameView,
        frames: Seq<FrameView>,
    ) -> bool {
        &&& 0 <= czar < self.players.len()
        &&& self.before_start().can_deal(None, HAND_SIZE, rolls)
        &&& post == self.before_start().after_deal(czar, rolls)
        &&& frames == post.round_frames(rolls.hands, true)
    }
}

impl Game {
    /// Clears every player's selections and, where `points_too`, sets their points back
    /// to zero.
    pub(crate) fn reset_players(&mut self, points_too: bool)
        ensures
            final(self)@ == (GameView {
                players: reset_players(old(self)@.players, points_too),
                ..old(self)@
            }),
    {
        let ghost before = self@.players;
        let mut i: usize = 0;
        while i < self.players.len()
            invariant
                i <= self.players.len(),
                self@.players.len() == before.len(),
                self@ == (GameView { players: self@.players, ..old(self)@ }),
                forall|j: int| 0 <= j < i
                    ==> #[trigger] self@.players[j] == reset_players(before, points_too)[j],
                forall|j: int| i <= j < before.len() ==> #[trigger] self@.players[j] == before[j],
            decreases self.players.len() - i,
        {
            let ghost entries = self@.players;
            let ghost raw = self.players@;
            let player = self.players.values_mut(i);
            player.selections.clear();
            if points_too {
                player.points = 0;
            }
            proof {
                assert(self.players@.len() == raw.len());
                assert(self.players@[i as int].0 == raw[i as int].0);
                assert(self.players@[i as int].1.selections@ =~= Seq::<CardID>::empty());
                assert(self.players@[i as int].1.name == raw[i as int].1.name);
                assert(entries[i as int] == raw[i as int]@);
                assert(self@.players[i as int] == self.players@[i as int]@);
                assert(self@.players.len() == entries.len());
                assert forall|j: int| 0 <= j < before.len() && j != i
                    implies #[trigger] self@.players[j]
                    == entries[j] by {}
                assert(self@.players[i as int] == reset_players(before, points_too)[i as int]);
            }
            i += 1;
        }
        assert(self@.players =~= reset_players(before, points_too));
    }

    /// Starts the next round: clears the selections, moves the czar's seat on, draws a
    /// prompt and deals every player but the last czar as many responses as the last
    /// prompt asked for.
    pub(crate) fn next_round(&mut self, out: &mut Vec<Frame>) -> (rolls: Ghost<RoundRolls>)
        requires
            old(self)@.round_ready(),
            old(self)@.czar_index < old(self)@.players.len(),
        ensures
            final(self).wf(),
            only_grew(views_of(old(out)@), views_of(final(out)@)),
            old(self)@.next_round_made(
                rolls@,
                final(self)@,
                frames_since(views_of(old(out)@), views_of(final(out)@)),
            ),
    {
        let ghost pre = self@;
        let ghost sent = views_of(out@);
        let last_czar = self.czar_index;
        let seats = self.players.len();
        let czar_index = (self.czar_index + 1) % seats;
        let count: usize = match &self.current_prompt {
            Some(prompt) => prompt.pick as usize,
            None => 0,
        };
        self.reset_players(false);
        proof {
            lemma_reset_players_keys(pre.players, false);
            let cleared = pre.before_round();
            assert(self@ == cleared);
            assert(cleared.all_responses() == pre.all_responses());
            assert forall|i: int| 0 <= i < cleared.players.len() implies {
                &&& (#[trigger] cleared.players[i]).0 == cleared.players[i].1.client_id
                &&& cleared.players[i].1.is_host == (cleared.players[i].0 == cleared.host_id)
                &&& cleared.players[i].1.points < cleared.points_to_win
            } by {
                assert(cleared.players[i].0 == pre.players[i].0);
                assert(cleared.players[i].1.points == pre.players[i].1.points);
            }
            assert(cleared.round_ready());
        }
        let rolls = self.deal_round(out, czar_index, Some(last_czar), count, false);
        proof {
            lemma_queued(sent, self@.round_frames(rolls@.hands, false));
        }
        rolls
    }
}

impl GameView {
    /// What a request to start the game comes to: it is rejected and nothing changes
    /// unless the sender may start the game and the packs hold cards; else `post` and
    /// `frames` are what starting makes of the game, for some first czar and some random
    /// choices.
    pub open spec fn start_handled(
        self,
        sender: ClientId,
        response: PacketResponseView,
        post: GameView,
        frames: Seq<FrameView>,
    ) -> bool {
        if !self.can_start(sender) {
            &&& response == PacketResponseView::Rejected
            &&& post == self
            &&& frames.len() == 0
        } else if !self.has_cards() {
            &&& response == PacketResponseView::RejectedWithReason("No packs selected"@)
            &&& post == self
            &&& frames.len() == 0
        } else {
            &&& response == PacketResponseView::Accepted
            &&& exists|czar: int, rolls: RoundRolls| #[trigger] self.start_made(czar, rolls, post,
                frames)
        }
    }

}

impl Game {
    /// Starts the game, or starts it over once it has ended. Only the host may.
    ///
    /// Sets points and selections back, makes a player chosen at random the first czar,
    /// draws a prompt from the full deck and deals every player a hand. A game whose
    /// packs hold no prompt or no response is not started.
    pub fn start_game(
        &mut self,
        out: &mut Vec<Frame>,
        sender: ClientId,
    ) -> (response: PacketResponse)
        requires
            old(self).wf(),
        ensures
            final(self).wf(),
            only_grew(views_of(old(out)@), views_of(final(out)@)),
            old(self)@.start_handled(
                sender,
                response@,
                final(self)@,
                frames_since(views_of(old(out)@), views_of(final(out)@)),
            ),
    {
        let ghost pre = self@;
        let ghost sent = views_of(out@);
        proof {
            lemma_queued(sent, Seq::empty());
            assert(sent + Seq::<FrameView>::empty() =~= sent);
        }
        let waiting = match self.state {
            GameState::Playing(_) => false,
            _ => true,
        };
        if !waiting || sender != self.host_id || self.player_position(sender).is_none() {
            return PacketResponse::Rejected;
        }
        let no_responses = full_deck_of(&self.response_counts()).len() == 0;
        let no_prompts = full_deck_of(&self.prompt_counts()).len() == 0;
        if no_responses || no_prompts {
            return PacketResponse::rejected_because("No packs selected");
        }
        self.reset_players(true);
        self.available_prompts.clear();
        self.available_responses.clear();
        proof {
            lemma_reset_players_keys(pre.players, true);
            let fresh = pre.before_start();
            assert(self@.available_prompts =~= fresh.available_prompts);
            assert(self@.available_responses =~= fresh.available_responses);
            assert(self@ == fresh);
            assert forall|i: int| 0 <= i < fresh.players.len() implies {
                &&& (#[trigger] fresh.players[i]).0 == fresh.players[i].1.client_id
                &&& fresh.players[i].1.is_host == (fresh.players[i].0 == fresh.host_id)
                &&& fresh.players[i].1.points < fresh.points_to_win
            } by {
                assert(fresh.players[i].0 == pre.players[i].0);
            }
            assert(fresh.round_ready());
        }
        let czar_index = random_index(self.players.len());
        let rolls = self.deal_round(out, czar_index, None, HAND_SIZE, true);
        proof {
            lemma_queued(sent, self@.round_frames(rolls@.hands, true));
            assert(pre.start_made(
                czar_index as int,
                rolls@,
                self@,
                frames_since(sent, views_of(out@)),
            ));
        }
        PacketResponse::Accepted
    }
}

/// The first deal of a game loses no card and deals none twice: as long as the deck is
/// not dealt out, the hands and the pool of undealt responses are together the response
/// cards of the game's packs, each once.
pub proof fn lemma_first_deal_conserves(
    game: GameView,
    czar: int,
    rolls: RoundRolls,
    post: GameView,
    frames: Seq<FrameView>,
)
    requires
        game.wf(),
        game.start_made(czar, rolls, post, frames),
        0 < rolls.responses.len() <= game.all_responses().len(),
    ensures
        concat_hands(rolls.hands).len() + post.available_responses.len()
            == game.all_responses().len(),
        (concat_hands(rolls.hands) + post.available_responses).no_duplicates(),
        forall|card: CardID|
            game.is_response(card) <==> #[trigger] (concat_hands(rolls.hands)
                + post.available_responses).contains(card),
{
    let full = game.all_responses();
    let counts = crate::game::response_counts(game.packs);
    crate::deck::lemma_full_deck(counts);
    crate::deck::lemma_deal_from_empty(full, rolls.responses);
    crate::deck::lemma_deal_conserves(full, full, rolls.responses);
    let all = concat_hands(rolls.hands) + post.available_responses;
    assert(all == cards_dealt(full, full, rolls.responses) + pool_after_deal(
        full,
        full,
        rolls.responses,
    ));
    assert forall|card: CardID| game.is_response(card) <==> #[trigger] all.contains(card) by {
        assert(full.contains(card) <==> game.is_response(card));
    }
}

/// The cards of the hand that a frame deals: the ids of the new responses of the round
/// that its last packet tells of.
pub open spec fn hand_in(frame: FrameView) -> Seq<CardID> {
    match frame.packets.last() {
        ClientBoundView::NextRound { new_responses, .. } => Seq::new(
            new_responses.len(),
            |k: int| new_responses[k].id,
        ),
        _ => Seq::empty(),
    }
}

/// The hands that `frames` deal, one for each frame.
pub open spec fn hands_in(frames: Seq<FrameView>) -> Seq<Seq<CardID>> {
    Seq::new(frames.len(), |i: int| hand_in(frames[i]))
}

/// Full hands, one after the other, are ten cards for each hand.
pub proof fn lemma_full_hands_len(hands: Seq<Seq<CardID>>)
    requires
        forall|i: int| 0 <= i < hands.len() ==> (#[trigger] hands[i]).len() == HAND_SIZE,
    ensures
        concat_hands(hands).len() == HAND_SIZE * hands.len(),
    decreases hands.len(),
{
    if hands.len() > 0 {
        let front = hands.drop_last();
        assert forall|i: int| 0 <= i < front.len() implies (#[trigger] front[i]).len()
            == HAND_SIZE by {
            assert(front[i] == hands[i]);
        }
        lemma_full_hands_len(front);
    }
}

/// Starting a game whose packs hold a prompt and a hand of responses for every player
/// succeeds, and deals no card twice: every player is sent the start and a round with a
/// hand of ten, no card is in two hands or both in a hand and in the pool, and the hands
/// and the pool of undealt responses are together the response cards of the game's packs.
pub proof fn lemma_start_deals_every_card_once(
    game: GameView,
    sender: ClientId,
    response: PacketResponseView,
    post: GameView,
    frames: Seq<FrameView>,
)
    requires
        game.wf(),
        game.can_start(sender),
        game.all_prompts().len() > 0,
        HAND_SIZE * game.players.len() <= game.all_responses().len(),
        game.start_handled(sender, response, post, frames),
    ensures
        response == PacketResponseView::Accepted,
        post.state == GameState::Playing(PlayingState::PlayerSelection),
        frames.len() == game.players.len(),
        forall|i: int|
            0 <= i < frames.len() ==> {
                &&& (#[trigger] frames[i]).to == game.players[i].0
                &&& frames[i].packets.len() == 2
                &&& frames[i].packets[0] == ClientBoundView::StartGame
                &&& frames[i].packets[1] is NextRound
                &&& hand_in(frames[i]).len() == HAND_SIZE
            },
        concat_hands(hands_in(frames)).len() == HAND_SIZE * game.players.len(),
        concat_hands(hands_in(frames)).no_duplicates(),
        forall|k: int|
            0 <= k < concat_hands(hands_in(frames)).len() ==> !post.available_responses.contains(
                #[trigger] concat_hands(hands_in(frames))[k],
            ),
        post.available_responses.len() + HAND_SIZE * game.players.len()
            == game.all_responses().len(),
        forall|card: CardID|
            game.is_response(card) <==> concat_hands(hands_in(frames)).contains(card)
                || #[trigger] post.available_responses.contains(card),
{
    lemma_first_index(game.players, sender);
    assert(game.players.len() >= 1);
    assert(game.has_cards());
    let (czar, rolls) = choose|czar: int, rolls: RoundRolls| #[trigger]
        game.start_made(czar, rolls, post, frames);
    let fresh = game.before_start();
    let full = game.all_responses();
    let dealt = concat_hands(rolls.hands);
    let pool = post.available_responses;
    assert(fresh.all_responses() == full);
    assert(post.players.len() == game.players.len());
    assert forall|i: int| 0 <= i < frames.len() implies {
        &&& (#[trigger] frames[i]).to == game.players[i].0
        &&& frames[i].packets.len() == 2
        &&& frames[i].packets[0] == ClientBoundView::StartGame
        &&& frames[i].packets[1] is NextRound
        &&& hand_in(frames[i]) == rolls.hands[i]
        &&& rolls.hands[i].len() == HAND_SIZE
    } by {
        assert(post.players[i].0 == game.players[i].0);
        assert(frames[i].packets.last() == frames[i].packets[1]);
        assert(hand_in(frames[i]) =~= rolls.hands[i]);
    }
    assert(hands_in(frames) =~= rolls.hands);
    lemma_full_hands_len(rolls.hands);
    crate::deck::lemma_cards_dealt_len(
        fresh.available_responses,
        full,
        rolls.responses,
    );
    assert(rolls.responses.len() == HAND_SIZE * game.players.len());
    lemma_first_deal_conserves(game, czar, rolls, post, frames);
    let all = dealt + pool;
    assert forall|a: int, b: int| 0 <= a < dealt.len() && 0 <= b < dealt.len() && a != b
        implies dealt[a] != dealt[b] by {
        assert(all[a] == dealt[a] && all[b] == dealt[b]);
    }
    assert forall|k: int| 0 <= k < dealt.len() implies !pool.contains(#[trigger] dealt[k]) by {
        if pool.contains(dealt[k]) {
            let w = choose|w: int| 0 <= w < pool.len() && pool[w] == dealt[k];
            assert(all[k] == dealt[k]);
            assert(all[dealt.len() + w] == pool[w]);
        }
    }
    assert forall|card: CardID|
        game.is_response(card) <==> dealt.contains(card) || #[trigger] pool.contains(card) by {
        assert(game.is_response(card) <==> all.contains(card));
        if all.contains(card) {
            let w = choose|w: int| 0 <= w < all.len() && all[w] == card;
            if w < dealt.len() {
                assert(dealt[w] == card);
            } else {
                assert(pool[w - dealt.len()] == card);
            }
        }
        if dealt.contains(card) {
            let w = choose|w: int| 0 <= w < dealt.len() && dealt[w] == card;
            assert(all[w] == card);
        }
        if pool.contains(card) {
            let w = choose|w: int| 0 <= w < pool.len() && pool[w] == card;
            assert(all[dealt.len() + w] == card);
        }
    }
}

} // verus!
