//! One game room: its players, settings and decks, and the round state machine.
//!
//! A game never sends anything itself. Its handlers queue outbound frames on the outbox
//! that they are given, and say in their contracts which frames those are.

use vstd::prelude::*;
use vstd::laws_eq::obeys_concrete_eq;
use vstd::string::StringExecFns;
use std::rc::Rc;
use crate::cards::{CardID, Pack, PackView, Prompt, PromptView, Response, MAX_PICK, MIN_PICK};
use crate::deck::{card_in_range, full_deck};
use crate::ids::{uuid_text, uuid_to_string, ClientId, ListenerId};
use crate::pack_store::{
    lemma_after_load_holds, lemma_after_load_keeps, lemma_released_holds, loads, pack_called,
    released, PackError, PackStore, PackStoreView,
};
use crate::protocol::{
    send_packet, ClientBoundPacket, ClientBoundView, Frame, FrameView, GameSetting,
    GameSettingView, GameSettings, GameSettingsView, ResponseData, ResponseDataView, Submission,
    SubmissionView,
};
use crate::seqs::views_of;
use crate::vec_map::{distinct_keys, first_index, has_key, lemma_first_index, VecMap};

pub mod packets;
pub mod play;
pub mod round;
pub mod seats;
pub mod settings;

verus! {

/// How many response cards a player is dealt when a game starts or when they join a game
/// that is under way.
pub const HAND_SIZE: usize = 10;

/// One player of a game.
#[derive(Debug, PartialEq, Eq)]
pub struct Player {
    pub client_id: ClientId,
    pub name: String,
    pub is_host: bool,
    pub points: u32,
    pub selections: Vec<CardID>,
}

/// What a [`Player`] holds.
pub struct PlayerView {
    pub client_id: ClientId,
    pub name: Seq<char>,
    pub is_host: bool,
    pub points: u32,
    pub selections: Seq<CardID>,
}

impl View for Player {
    type V = PlayerView;

    open spec fn view(&self) -> PlayerView {
        PlayerView {
            client_id: self.client_id,
            name: self.name@,
            is_host: self.is_host,
            points: self.points,
            selections: self.selections@,
        }
    }
}

impl PlayerView {
    /// The name a player has until they choose one.
    pub open spec fn default_name(client_id: ClientId) -> Seq<char> {
        "Player #"@ + uuid_text(client_id)
    }

    /// The player that joining makes of a client.
    pub open spec fn fresh(client_id: ClientId, is_host: bool) -> PlayerView {
        PlayerView {
            client_id,
            name: Self::default_name(client_id),
            is_host,
            points: 0,
            selections: Seq::empty(),
        }
    }

    /// The packet that introduces the player to a client.
    pub open spec fn as_packet(self) -> ClientBoundView {
        ClientBoundView::AddPlayer {
            id: self.client_id,
            name: self.name,
            is_host: self.is_host,
            points: self.points,
        }
    }
}

impl Player {
    /// A player without points or selections, under the default name.
    pub fn new(client_id: ClientId, is_host: bool) -> (player: Self)
        ensures
            player@ == PlayerView::fresh(client_id, is_host),
    {
        let name = String::from_str("Player #").concat(uuid_to_string(client_id).as_str());
        Player { client_id, name, is_host, points: 0, selections: Vec::new() }
    }

    /// The packet that introduces the player to a client.
    pub fn as_packet(&self) -> (packet: ClientBoundPacket)
        ensures
            packet@ == self@.as_packet(),
    {
        ClientBoundPacket::AddPlayer {
            id: self.client_id,
            name: self.name.clone(),
            is_host: self.is_host,
            points: self.points,
        }
    }
}

/// Which half of a round is under way.
#[derive(Clone, Copy, PartialEq, Eq, Structural, Debug)]
pub enum PlayingState {
    /// The players other than the czar choose their responses.
    PlayerSelection,
    /// The czar chooses the winning submission.
    CzarSelection,
}

/// Where a game stands.
#[derive(Clone, Copy, PartialEq, Eq, Structural, Debug)]
pub enum GameState {
    WaitingToStart,
    Playing(PlayingState),
    End,
}

/// How many response cards each pack of `packs` holds.
pub open spec fn response_counts(packs: Seq<PackView>) -> Seq<usize> {
    Seq::new(packs.len(), |i: int| packs[i].responses.len() as usize)
}

/// How many prompt cards each pack of `packs` holds.
pub open spec fn prompt_counts(packs: Seq<PackView>) -> Seq<usize> {
    Seq::new(packs.len(), |i: int| packs[i].prompts.len() as usize)
}

/// The text of response card `card`.
pub open spec fn response_text(packs: Seq<PackView>, card: CardID) -> Seq<char> {
    packs[card.pack_number as int].responses[card.card_number as int]
}

/// Prompt card `card`.
pub open spec fn prompt_at(packs: Seq<PackView>, card: CardID) -> PromptView {
    packs[card.pack_number as int].prompts[card.card_number as int]
}

/// The response cards `cards` as they are sent to a client.
pub open spec fn response_data(packs: Seq<PackView>, cards: Seq<CardID>) -> Seq<ResponseDataView> {
    Seq::new(
        cards.len(),
        |k: int| ResponseDataView { id: cards[k], text: response_text(packs, cards[k]) },
    )
}

/// One frame with `packet` for each of `players`, in their order.
pub open spec fn broadcast_frames(
    players: Seq<(ClientId, PlayerView)>,
    packet: ClientBoundView,
) -> Seq<FrameView> {
    Seq::new(players.len(), |i: int| FrameView { to: players[i].0, packets: seq![packet] })
}

/// What a [`Game`] holds.
pub struct GameView {
    pub id: ListenerId,
    pub host_id: ClientId,
    pub packs: Seq<PackView>,
    pub available_prompts: Seq<CardID>,
    pub available_responses: Seq<CardID>,
    pub players: Seq<(ClientId, PlayerView)>,
    pub state: GameState,
    pub czar_index: int,
    pub current_prompt: Option<PromptView>,
    pub max_players: Option<usize>,
    pub max_selection_time: Option<u32>,
    pub points_to_win: u32,
}

impl GameView {
    /// Every response card of the game's packs.
    pub open spec fn all_responses(self) -> Seq<CardID> {
        full_deck(response_counts(self.packs))
    }

    /// Every prompt card of the game's packs.
    pub open spec fn all_prompts(self) -> Seq<CardID> {
        full_deck(prompt_counts(self.packs))
    }

    /// Whether `card` names a response card of the game's packs.
    pub open spec fn is_response(self, card: CardID) -> bool {
        card_in_range(response_counts(self.packs), card)
    }

    /// Whether `card` names a prompt card of the game's packs.
    pub open spec fn is_prompt(self, card: CardID) -> bool {
        card_in_range(prompt_counts(self.packs), card)
    }

    /// Whether `client_id` is a player of the game.
    pub open spec fn has_player(self, client_id: ClientId) -> bool {
        has_key(self.players, client_id)
    }

    /// The position of player `client_id` among the players.
    pub open spec fn player_index(self, client_id: ClientId) -> int {
        first_index(self.players, client_id)
    }

    /// The client that judges the round under way.
    pub open spec fn czar_id(self) -> ClientId {
        self.players[self.czar_index].0
    }

    /// How many responses the current prompt asks for; zero where there is no prompt.
    pub open spec fn pick(self) -> int {
        match self.current_prompt {
            Some(prompt) => prompt.pick as int,
            None => 0,
        }
    }

    /// Whether the game is over and deserted, so that it can be dropped.
    pub open spec fn is_terminated(self) -> bool {
        self.state == GameState::End && self.players.len() == 0
    }

    /// The invariant of a game.
    pub open spec fn wf(self) -> bool {
        &&& distinct_keys(self.players)
        &&& forall|i: int|
            0 <= i < self.players.len() ==> {
                &&& (#[trigger] self.players[i]).0 == self.players[i].1.client_id
                &&& self.players[i].1.is_host == (self.players[i].0 == self.host_id)
                &&& forall|k: int|
                    0 <= k < self.players[i].1.selections.len() ==> self.is_response(
                        #[trigger] self.players[i].1.selections[k],
                    )
            }
        &&& self.players.len() > 0 ==> self.has_player(self.host_id)
        &&& self.points_to_win >= 1
        &&& self.packs.len() <= usize::MAX
        &&& forall|i: int| 0 <= i < self.packs.len() ==> (#[trigger] self.packs[i]).picks_in_range()
        &&& self.available_responses.no_duplicates()
        &&& self.available_prompts.no_duplicates()
        &&& forall|k: int|
            0 <= k < self.available_responses.len() ==> self.is_response(
                #[trigger] self.available_responses[k],
            )
        &&& forall|k: int|
            0 <= k < self.available_prompts.len() ==> self.is_prompt(
                #[trigger] self.available_prompts[k],
            )
        &&& self.current_prompt matches Some(prompt) ==> MIN_PICK <= prompt.pick <= MAX_PICK
        &&& 0 <= self.czar_index <= usize::MAX
        &&& self.state == GameState::WaitingToStart ==> {
            &&& self.available_responses.len() == 0
            &&& self.available_prompts.len() == 0
            &&& self.current_prompt is None
            &&& forall|i: int|
                0 <= i < self.players.len() ==> (#[trigger] self.players[i]).1.selections.len() == 0
        }
        &&& self.state is Playing ==> {
            &&& self.czar_index < self.players.len()
            &&& self.players[self.czar_index].1.selections.len() == 0
            &&& self.current_prompt is Some
            &&& self.all_responses().len() > 0
            &&& self.all_prompts().len() > 0
            &&& forall|i: int|
                0 <= i < self.players.len() ==> (#[trigger] self.players[i]).1.points
                    < self.points_to_win
        }
    }
}

/// A game room.
pub struct Game {
    pub id: ListenerId,
    pub host_id: ClientId,
    pub packs: Vec<Rc<Pack>>,
    pub available_prompts: Vec<CardID>,
    pub available_responses: Vec<CardID>,
    pub players: VecMap<ClientId, Player>,
    pub state: GameState,
    pub czar_index: usize,
    pub current_prompt: Option<Prompt>,
    pub max_players: Option<usize>,
    pub max_selection_time: Option<u32>,
    pub points_to_win: u32,
}

impl View for Game {
    type V = GameView;

    open spec fn view(&self) -> GameView {
        GameView {
            id: self.id,
            host_id: self.host_id,
            packs: views_of(self.packs@),
            available_prompts: self.available_prompts@,
            available_responses: self.available_responses@,
            players: views_of(self.players@),
            state: self.state,
            czar_index: self.czar_index as int,
            current_prompt: match self.current_prompt {
                Some(prompt) => Some(prompt@),
                None => None,
            },
            max_players: self.max_players,
            max_selection_time: self.max_selection_time,
            points_to_win: self.points_to_win,
        }
    }
}

/// Client ids are compared by value.
pub proof fn lemma_ids_compare_by_value()
    ensures
        obeys_concrete_eq::<ClientId>(),
{
    reveal(obeys_concrete_eq);
}

/// A key is found at the same place among entries and among their views.
pub proof fn lemma_first_index_views(entries: Seq<(ClientId, Player)>, key: ClientId)
    ensures
        first_index(views_of(entries), key) == first_index(entries, key),
{
    let views = views_of(entries);
    lemma_first_index(entries, key);
    lemma_first_index(views, key);
    let a = first_index(entries, key);
    let b = first_index(views, key);
    if a < b {
        assert(views[a].0 == entries[a].0);
    }
    if b < a {
        assert(views[b].0 == entries[b].0);
    }
}

/// The submissions of `players` to a prompt that asks for `pick` responses: for each
/// player who has chosen exactly `pick` cards, in the players' order, the cards chosen.
pub open spec fn submissions_of(
    players: Seq<(ClientId, PlayerView)>,
    packs: Seq<PackView>,
    pick: int,
) -> Seq<SubmissionView>
    decreases players.len(),
{
    if players.len() == 0 {
        Seq::empty()
    } else {
        let rest = submissions_of(players.drop_last(), packs, pick);
        let last = players.last();
        if last.1.selections.len() == pick {
            rest.push(
                SubmissionView {
                    player: last.0,
                    responses: response_data(packs, last.1.selections),
                },
            )
        } else {
            rest
        }
    }
}

impl GameView {
    /// The name of the host; empty where the game has no player.
    pub open spec fn host_name(self) -> Seq<char> {
        if self.has_player(self.host_id) {
            self.players[self.player_index(self.host_id)].1.name
        } else {
            Seq::empty()
        }
    }

    /// The game's settings as the packets that tell a client of them.
    pub open spec fn settings_packets(self) -> Seq<ClientBoundView> {
        seq![
            ClientBoundView::SettingUpdate(GameSettingView::MaxPlayers(self.max_players)),
            ClientBoundView::SettingUpdate(
                GameSettingView::MaxSelectionTime(self.max_selection_time),
            ),
            ClientBoundView::SettingUpdate(GameSettingView::PointsToWin(self.points_to_win)),
        ] + Seq::new(
            self.packs.len(),
            |i: int| ClientBoundView::SettingUpdate(GameSettingView::AddPack(self.packs[i].name)),
        )
    }

    /// The packet that shows the submissions to the current prompt.
    pub open spec fn display_responses(self) -> ClientBoundView {
        ClientBoundView::DisplayResponses(submissions_of(self.players, self.packs, self.pick()))
    }

    /// Whether every player but the czar has chosen as many cards as the prompt asks for.
    pub open spec fn all_submitted(self) -> bool {
        forall|i: int|
            0 <= i < self.players.len() ==> i == self.czar_index || (
            #[trigger] self.players[i]).1.selections.len() == self.pick()
    }
}

impl Game {
    /// The invariant of a game: players are distinct and know who the host is, the pools
    /// hold cards of the game's packs, each once, and while a round is under way the czar
    /// is one of the players and has submitted nothing, and there is a prompt.
    pub open spec fn wf(&self) -> bool {
        self@.wf()
    }

    /// How many players the game has.
    pub fn num_players(&self) -> (n: usize)
        ensures
            n == self@.players.len(),
    {
        self.players.len()
    }

    /// Whether the game is over and deserted, so that it can be dropped.
    pub fn is_terminated(&self) -> (terminated: bool)
        ensures
            terminated == self@.is_terminated(),
    {
        match self.state {
            GameState::End => self.players.len() == 0,
            _ => false,
        }
    }

    /// The name of the host; empty where the game has no player.
    pub fn host_name(&self) -> (name: String)
        ensures
            name@ == self@.host_name(),
    {
        proof {
            lemma_ids_compare_by_value();
            lemma_first_index_views(self.players@, self.host_id);
        }
        match self.players.position(&self.host_id) {
            Some(i) => self.players.inner[i].1.name.clone(),
            None => String::new(),
        }
    }

    /// The position of player `client_id` among the players.
    pub fn player_position(&self, client_id: ClientId) -> (found: Option<usize>)
        ensures
            found is Some <==> self@.has_player(client_id),
            found matches Some(i) ==> i == self@.player_index(client_id) && i < self@.players.len()
                && self@.players[i as int].0 == client_id,
    {
        proof {
            lemma_ids_compare_by_value();
            lemma_first_index_views(self.players@, client_id);
        }
        self.players.position(&client_id)
    }

    pub(crate) fn response_counts(&self) -> (counts: Vec<usize>)
        ensures
            counts@ == response_counts(self@.packs),
    {
        let mut counts: Vec<usize> = Vec::new();
        let mut i: usize = 0;
        while i < self.packs.len()
            invariant
                i <= self.packs.len(),
                counts@ == response_counts(self@.packs).take(i as int),
            decreases self.packs.len() - i,
        {
            counts.push(self.packs[i].responses.len());
            assert(counts@ =~= response_counts(self@.packs).take(i + 1));
            i += 1;
        }
        assert(counts@ =~= response_counts(self@.packs));
        counts
    }

    pub(crate) fn prompt_counts(&self) -> (counts: Vec<usize>)
        ensures
            counts@ == prompt_counts(self@.packs),
    {
        let mut counts: Vec<usize> = Vec::new();
        let mut i: usize = 0;
        while i < self.packs.len()
            invariant
                i <= self.packs.len(),
                counts@ == prompt_counts(self@.packs).take(i as int),
            decreases self.packs.len() - i,
        {
            counts.push(self.packs[i].prompts.len());
            assert(counts@ =~= prompt_counts(self@.packs).take(i + 1));
            i += 1;
        }
        assert(counts@ =~= prompt_counts(self@.packs));
        counts
    }

    /// The text of response card `card`.
    pub(crate) fn response_text(&self, card: CardID) -> (text: Response)
        requires
            self@.is_response(card),
        ensures
            text@ == response_text(self@.packs, card),
    {
        self.packs[card.pack_number].responses[card.card_number].clone()
    }

    /// The response cards `cards` as they are sent to a client.
    pub(crate) fn response_data(&self, cards: &Vec<CardID>) -> (data: Vec<ResponseData>)
        requires
            forall|k: int| 0 <= k < cards@.len() ==> self@.is_response(#[trigger] cards@[k]),
        ensures
            views_of(data@) == response_data(self@.packs, cards@),
    {
        let mut data: Vec<ResponseData> = Vec::new();
        let mut k: usize = 0;
        while k < cards.len()
            invariant
                k <= cards.len(),
                forall|j: int| 0 <= j < cards@.len() ==> self@.is_response(#[trigger] cards@[j]),
                views_of(data@) == response_data(self@.packs, cards@.take(k as int)),
            decreases cards.len() - k,
        {
            let card = cards[k];
            let ghost before = views_of(data@);
            data.push(ResponseData::new(card, self.response_text(card)));
            assert(views_of(data@) =~= before.push(data@.last()@));
            assert(views_of(data@) =~= response_data(self@.packs, cards@.take(k + 1)));
            k += 1;
        }
        assert(cards@.take(cards.len() as int) =~= cards@);
        data
    }

    /// Queues `packet` for every player.
    pub(crate) fn broadcast_to_players(&self, out: &mut Vec<Frame>, packet: &ClientBoundPacket)
        ensures
            views_of(final(out)@) == views_of(old(out)@) + broadcast_frames(self@.players, packet@),
    {
        let mut i: usize = 0;
        assert(views_of(out@) =~= views_of(old(out)@) + broadcast_frames(
            self@.players.take(0),
            packet@,
        ));
        while i < self.players.len()
            invariant
                i <= self.players.len(),
                views_of(out@) == views_of(old(out)@) + broadcast_frames(
                    self@.players.take(i as int),
                    packet@,
                ),
            decreases self.players.len() - i,
        {
            send_packet(out, self.players.inner[i].0, packet.clone());
            assert(views_of(out@) =~= views_of(old(out)@) + broadcast_frames(
                self@.players.take(i + 1),
                packet@,
            ));
            i += 1;
        }
        assert(self@.players.take(self.players.len() as int) =~= self@.players);
    }

    /// The game's settings as the packets that tell a client of them.
    pub(crate) fn settings_as_packets(&self) -> (packets: Vec<ClientBoundPacket>)
        ensures
            views_of(packets@) == self@.settings_packets(),
    {
        let mut packets: Vec<ClientBoundPacket> = Vec::new();
        packets.push(ClientBoundPacket::SettingUpdate(GameSetting::MaxPlayers(self.max_players)));
        let time_limit = GameSetting::MaxSelectionTime(self.max_selection_time);
        packets.push(ClientBoundPacket::SettingUpdate(time_limit));
        let points = GameSetting::PointsToWin(self.points_to_win);
        packets.push(ClientBoundPacket::SettingUpdate(points));
        let mut i: usize = 0;
        while i < self.packs.len()
            invariant
                i <= self.packs.len(),
                views_of(packets@).len() == 3 + i,
                views_of(packets@)[0] == ClientBoundView::SettingUpdate(
                    GameSettingView::MaxPlayers(self@.max_players),
                ),
                views_of(packets@)[1] == ClientBoundView::SettingUpdate(
                    GameSettingView::MaxSelectionTime(self@.max_selection_time),
                ),
                views_of(packets@)[2] == ClientBoundView::SettingUpdate(
                    GameSettingView::PointsToWin(self@.points_to_win),
                ),
                forall|k: int|
                    3 <= k < 3 + i
                        ==> #[trigger] views_of(packets@)[k] == ClientBoundView::SettingUpdate(
                        GameSettingView::AddPack(self@.packs[k - 3].name),
                    ),
            decreases self.packs.len() - i,
        {
            let ghost before = views_of(packets@);
            let pack = GameSetting::AddPack(self.packs[i].name.clone());
            packets.push(ClientBoundPacket::SettingUpdate(pack));
            assert(views_of(packets@) =~= before.push(packets@.last()@));
            i += 1;
        }
        assert(views_of(packets@) =~= self@.settings_packets());
        packets
    }

    /// The packet that shows the submissions to the current prompt.
    pub(crate) fn display_responses(&self) -> (packet: ClientBoundPacket)
        requires
            self.wf(),
        ensures
            packet@ == self@.display_responses(),
    {
        let pick: usize = match &self.current_prompt {
            Some(prompt) => prompt.pick as usize,
            None => 0,
        };
        let mut submissions: Vec<Submission> = Vec::new();
        let mut i: usize = 0;
        while i < self.players.len()
            invariant
                i <= self.players.len(),
                self.wf(),
                pick == self@.pick(),
                views_of(submissions@) == submissions_of(
                    self@.players.take(i as int),
                    self@.packs,
                    pick as int,
                ),
            decreases self.players.len() - i,
        {
            let player = &self.players.inner[i].1;
            assert(self@.players.take(i + 1).drop_last() =~= self@.players.take(i as int));
            assert(self@.players.take(i + 1).last() == self@.players[i as int]);
            if player.selections.len() == pick {
                let ghost before = views_of(submissions@);
                assert forall|k: int| 0 <= k < player.selections@.len() implies self@.is_response(
                    #[trigger] player.selections@[k],
                ) by {
                    assert(self@.players[i as int].1.selections[k] == player.selections@[k]);
                }
                let responses = self.response_data(&player.selections);
                submissions.push(Submission { player: self.players.inner[i].0, responses });
                assert(views_of(submissions@) =~= before.push(submissions@.last()@));
            }
            i += 1;
        }
        assert(self@.players.take(self.players.len() as int) =~= self@.players);
        ClientBoundPacket::DisplayResponses(submissions)
    }
}

impl GameView {
    /// A game that was just created: nobody plays, nothing is dealt, and the game waits
    /// to start.
    pub open spec fn created(
        id: ListenerId,
        packs: Seq<PackView>,
        settings: GameSettingsView,
    ) -> GameView {
        GameView {
            id,
            host_id: 0,
            packs,
            available_prompts: Seq::empty(),
            available_responses: Seq::empty(),
            players: Seq::empty(),
            state: GameState::WaitingToStart,
            czar_index: 0,
            current_prompt: None,
            max_players: settings.max_players,
            max_selection_time: settings.max_selection_time,
            points_to_win: settings.points_to_win,
        }
    }
}

impl Game {
    /// Creates the game `id` with the given settings, and loads its packs for it.
    ///
    /// The packs are loaded in the order in which the settings name them. If one cannot
    /// be loaded, the error is returned and the game lets go of the packs that were
    /// loaded for it.
    pub fn new(
        id: ListenerId,
        pack_store: &mut PackStore,
        settings: &GameSettings,
    ) -> (created: Result<Game, PackError>)
        requires
            old(pack_store).wf(),
            settings@.points_to_win >= 1,
        ensures
            final(pack_store).wf(),
            final(pack_store)@.catalog == old(pack_store)@.catalog,
            forall|other: ListenerId, pack: Seq<char>| #[trigger]
                final(pack_store)@.holds(other, pack) ==> old(pack_store)@.holds(other, pack) || (
                created is Ok && other == id && settings@.packs.contains(pack)),
            forall|other: ListenerId, pack: Seq<char>|
                (created is Ok || other != id) && #[trigger] old(pack_store)@.holds(other, pack)
                    ==> final(pack_store)@.holds(other, pack),
            created is Ok ==> forall|k: int|
                0 <= k < settings@.packs.len() ==> final(pack_store)@.holds(
                    id,
                    #[trigger] settings@.packs[k],
                ),
            match created {
                Ok(game) => {
                    &&& loads(old(pack_store)@, settings@.packs, id).1 is None
                    &&& final(pack_store)@ == loads(old(pack_store)@, settings@.packs, id).0
                    &&& game.wf()
                    &&& game@ == GameView::created(
                        id,
                        Seq::new(
                            settings@.packs.len(),
                            |k: int| pack_called(final(pack_store)@, settings@.packs[k]),
                        ),
                        settings@,
                    )
                    &&& forall|k: int|
                        0 <= k < settings@.packs.len() ==> (#[trigger] game@.packs[k]).name
                            == settings@.packs[k]
                },
                Err(error) => {
                    &&& loads(old(pack_store)@, settings@.packs, id).1 == Some(error)
                    &&& final(pack_store)@ == (PackStoreView {
                        loaded: released(
                            loads(old(pack_store)@, settings@.packs, id).0.loaded,
                            id,
                        ),
                        ..loads(old(pack_store)@, settings@.packs, id).0
                    })
                    &&& !final(pack_store)@.holds_any(id)
                },
            },
    {
        let ghost names = settings@.packs;
        let ghost start = pack_store@;
        let mut packs: Vec<Rc<Pack>> = Vec::new();
        let mut i: usize = 0;
        while i < settings.packs.len()
            invariant
                i <= settings.packs.len(),
                names == settings@.packs,
                start == old(pack_store)@,
                pack_store.wf(),
                pack_store@.catalog == start.catalog,
                loads(start, names.take(i as int), id) == (pack_store@, None::<PackError>),
                forall|other: ListenerId, pack: Seq<char>| #[trigger]
                    pack_store@.holds(other, pack) ==> start.holds(other, pack) || (other == id
                        && names.take(i as int).contains(pack)),
                forall|other: ListenerId, pack: Seq<char>| #[trigger]
                    start.holds(other, pack) ==> pack_store@.holds(other, pack),
                forall|k: int| 0 <= k < i ==> pack_store@.holds(id, #[trigger] names[k]),
                packs@.len() == i,
                forall|k: int|
                    0 <= k < i ==> {
                        &&& has_key(pack_store@.loaded, #[trigger] names[k])
                        &&& packs@[k]@ == pack_called(pack_store@, names[k])
                        &&& packs@[k]@.picks_in_range()
                    },
            decreases settings.packs.len() - i,
        {
            let ghost before = pack_store@;
            assert(names.take(i + 1).drop_last() =~= names.take(i as int));
            assert(names.take(i + 1).last() == names[i as int]);
            match pack_store.load_pack(settings.packs[i].as_str(), id) {
                Ok(pack) => {
                    proof {
                        assert forall|k: int| 0 <= k < i implies {
                            &&& has_key(pack_store@.loaded, #[trigger] names[k])
                            &&& packs@[k]@ == pack_called(pack_store@, names[k])
                        } by {
                            lemma_after_load_keeps(before, names[i as int], id, names[k]);
                        }
                        lemma_after_load_holds(before, names[i as int], id);
                        assert forall|other: ListenerId, pack: Seq<char>| #[trigger]
                            start.holds(other, pack) implies pack_store@.holds(other, pack) by {
                            assert(before.holds(other, pack));
                        }
                        assert forall|k: int| 0 <= k < i + 1 implies pack_store@.holds(
                            id,
                            #[trigger] names[k],
                        ) by {
                            if k < i {
                                assert(before.holds(id, names[k]));
                            }
                        }
                        assert forall|other: ListenerId, pack: Seq<char>| #[trigger]
                            pack_store@.holds(other, pack)
                                implies start.holds(other, pack) || (other
                            == id && names.take(i + 1).contains(pack)) by {
                            if other == id && pack == names[i as int] {
                                assert(names.take(i + 1)[i as int] == pack);
                            } else {
                                assert(before.holds(other, pack));
                                if !start.holds(other, pack) {
                                    let w = choose|w: int|
                                        0 <= w < names.take(i as int).len() && names.take(
                                            i as int,
                                        )[w] == pack;
                                    assert(names.take(i + 1)[w] == pack);
                                }
                            }
                        }
                    }
                    let ghost loaded = packs@;
                    packs.push(pack);
                    proof {
                        assert forall|k: int| 0 <= k < i + 1 implies {
                            &&& has_key(pack_store@.loaded, #[trigger] names[k])
                            &&& packs@[k]@ == pack_called(pack_store@, names[k])
                            &&& packs@[k]@.picks_in_range()
                        } by {
                            if k < i {
                                assert(packs@[k] == loaded[k]);
                            } else {
                                assert(packs@[k] == pack);
                            }
                        }
                    }
                },
                Err(error) => {
                    proof {
                        assert(names.take(names.len() as int) =~= names);
                        lemma_loads_stop(start, names, id, i as int);
                        lemma_released_holds(before, id);
                    }
                    pack_store.release_all(id);
                    proof {
                        assert(pack_store@ == (PackStoreView {
                            loaded: released(before.loaded, id),
                            ..before
                        }));
                    }
                    return Err(error);
                },
            }
            i += 1;
        }
        proof {
            assert(names.take(names.len() as int) =~= names);
        }
        let game = Game {
            id,
            host_id: 0,
            packs,
            available_prompts: Vec::new(),
            available_responses: Vec::new(),
            players: VecMap::new(),
            state: GameState::WaitingToStart,
            czar_index: 0,
            current_prompt: None,
            max_players: settings.max_players,
            max_selection_time: settings.max_selection_time,
            points_to_win: settings.points_to_win,
        };
        proof {
            assert(game@.packs =~= Seq::new(
                names.len(),
                |k: int| pack_called(pack_store@, names[k]),
            ));
            assert forall|k: int| 0 <= k < names.len() implies (#[trigger] game@.packs[k]).name
                == names[k] by {
                assert(has_key(pack_store@.loaded, names[k]));
                lemma_first_index(pack_store@.loaded, names[k]);
            }
            assert(game@.players =~= Seq::empty());
            assert(game.packs@.len() == game.packs.len());
        }
        Ok(game)
    }

}

/// Where the requests for the first `i` packs succeed and the next one fails, the
/// requests for all the packs stop there, with that error.
pub proof fn lemma_loads_stop(
    store: PackStoreView,
    names: Seq<Seq<char>>,
    holder: ListenerId,
    i: int,
)
    requires
        0 <= i < names.len(),
        loads(store, names.take(i), holder).1 is None,
        loads(store, names.take(i), holder).0.load_error(names[i]) is Some,
    ensures
        loads(store, names, holder) == (
            loads(store, names.take(i), holder).0,
            loads(store, names.take(i), holder).0.load_error(names[i]),
        ),
    decreases names.len(),
{
    if i == names.len() - 1 {
        assert(names.drop_last() =~= names.take(i));
    } else {
        assert(names.drop_last().take(i) =~= names.take(i));
        lemma_loads_stop(store, names.drop_last(), holder, i);
    }
}

} // verus!
