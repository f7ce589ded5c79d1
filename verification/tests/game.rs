use cfh::cards::{CardID, Pack, PackMeta, Prompt};
use cfh::game::{Game, GameState, Player, PlayingState, HAND_SIZE};
use cfh::pack_store::{CatalogEntry, PackError, PackStore, DEFAULT_PACK};
use cfh::protocol::{
    ClientBoundPacket, Frame, GameSetting, GameSettings, PacketResponse, ResponseData,
    ServerBoundPacket, Submission,
};

const A: u128 = 0xa1a2a3a4_b1b2_c1c2_d1d2_d3d4d5d6d7d8;
const B: u128 = 2;
const C: u128 = 3;
const D: u128 = 4;
const GAME: u128 = 100;

fn pack(name: &str, prompts: usize, responses: usize, pick: u8) -> Pack {
    Pack {
        name: name.to_owned(),
        official: true,
        responses: (0..responses).map(|i| format!("{} response {}", name, i)).collect(),
        prompts: (0..prompts).map(|i| Prompt { text: format!("{} prompt {}", name, i),
            pick }).collect(),
    }
}

fn entry(name: &str) -> CatalogEntry {
    CatalogEntry {
        name: name.to_owned(),
        meta: PackMeta { official: true, num_prompts: 0, num_responses: 0 },
    }
}

fn store() -> PackStore {
    let catalog = vec![entry(DEFAULT_PACK), entry("Pairs"), entry("Empty"), entry("Tiny"),
        entry("Lost")];
    let mut store = PackStore::new(catalog, Some(pack(DEFAULT_PACK, 5, 60, 1))).unwrap();
    assert!(store.stage(pack("Pairs", 4, 80, 2)));
    assert!(store.stage(pack("Empty", 0, 0, 1)));
    assert!(store.stage(pack("Tiny", 1, 4, 1)));
    store
}

fn settings(packs: &[&str], points_to_win: u32) -> GameSettings {
    GameSettings {
        max_players: None,
        max_selection_time: None,
        points_to_win,
        packs: packs.iter().map(|name| (*name).to_owned()).collect(),
    }
}

fn game_with(store: &mut PackStore, packs: &[&str], points_to_win: u32, players: &[u128]) -> Game {
    let mut game = Game::new(GAME, store, &settings(packs, points_to_win)).unwrap();
    let mut out = Vec::new();
    for player in players {
        game.client_connected(&mut out, *player);
    }
    game
}

fn started(store: &mut PackStore, packs: &[&str], points_to_win: u32, players: &[u128]) -> (Game,
    Vec<Frame>) {
    let mut game = game_with(store, packs, points_to_win, players);
    let mut out = Vec::new();
    assert_eq!(game.start_game(&mut out, players[0]), PacketResponse::Accepted);
    (game, out)
}

fn ids(game: &Game) -> Vec<u128> {
    game.players.inner.iter().map(|(id, _)| *id).collect()
}

fn czar(game: &Game) -> u128 {
    game.players.inner[game.czar_index].0
}

fn player<'a>(game: &'a Game, id: u128) -> &'a Player {
    &game.players.inner.iter().find(|(key, _)| *key == id).unwrap().1
}

fn recipients(out: &[Frame]) -> Vec<u128> {
    out.iter().map(|frame| frame.to).collect()
}

fn broadcast(to: &[u128], packet: ClientBoundPacket) -> Vec<Frame> {
    to.iter().map(|id| Frame { to: *id, packets: vec![packet.clone()] }).collect()
}

fn hand_of(frame: &Frame) -> Vec<ResponseData> {
    for packet in &frame.packets {
        if let ClientBoundPacket::NextRound { new_responses, .. } = packet {
            return new_responses.clone();
        }
    }
    panic!("the frame holds no NextRound: {:?}", frame);
}

fn is_response(game: &Game, data: &ResponseData) -> bool {
    data.id.pack_number < game.packs.len()
        && data.id.card_number < game.packs[data.id.pack_number].responses.len()
        && game.packs[data.id.pack_number].responses[data.id.card_number] == data.text
}

fn no_duplicates(pool: &[CardID]) -> bool {
    (0..pool.len()).all(|i| (0..i).all(|j| pool[i] != pool[j]))
}

/// A response card of the default pack; nobody checks that it is in the sender's hand.
fn some_card(n: usize) -> CardID {
    CardID::new(0, n)
}

fn to_czar_selection(game: &mut Game) {
    let czar = czar(game);
    let pick = game.current_prompt.as_ref().unwrap().pick as usize;
    let mut out = Vec::new();
    for id in ids(game) {
        if id != czar {
            for n in 0..pick {
                assert_eq!(game.select_response(&mut out, id, some_card(n)),
                    PacketResponse::Accepted);
            }
        }
    }
    assert_eq!(game.state, GameState::Playing(PlayingState::CzarSelection));
}

#[test]
fn player_new_has_the_default_name() {
    let player = Player::new(A, true);
    assert_eq!(player.client_id, A);
    assert_eq!(player.name, "Player #a1a2a3a4-b1b2-c1c2-d1d2-d3d4d5d6d7d8");
    assert!(player.is_host);
    assert_eq!(player.points, 0);
    assert!(player.selections.is_empty());
    assert_eq!(
        player.as_packet(),
        ClientBoundPacket::AddPlayer {
            id: A,
            name: "Player #a1a2a3a4-b1b2-c1c2-d1d2-d3d4d5d6d7d8".to_owned(),
            is_host: true,
            points: 0,
        }
    );
    assert_eq!(Player::new(0, false).name, "Player #00000000-0000-0000-0000-000000000000");
}

#[test]
fn new_game_waits_to_start_with_its_packs() {
    let mut store = store();
    let game = Game::new(GAME, &mut store, &settings(&[DEFAULT_PACK, "Pairs"], 3)).unwrap();
    assert_eq!(game.id, GAME);
    assert_eq!(game.state, GameState::WaitingToStart);
    assert_eq!(game.num_players(), 0);
    assert_eq!(game.points_to_win, 3);
    assert_eq!(game.packs.len(), 2);
    assert_eq!(game.packs[0].name, DEFAULT_PACK);
    assert_eq!(game.packs[1].name, "Pairs");
    assert!(!game.is_terminated());
    assert_eq!(game.host_name(), "");
    assert_eq!(store.loaded_packs[0].holders, vec![GAME]);
    assert_eq!(store.loaded_packs[1].holders, vec![GAME]);
}

#[test]
fn new_game_fails_on_a_pack_that_cannot_be_loaded() {
    let mut store = store();
    assert_eq!(
        Game::new(GAME, &mut store, &settings(&["Pairs", "Nope"], 3)).err(),
        Some(PackError::NotFound)
    );
    assert!(!store.is_loaded("Pairs"));
    assert!(store.loaded_packs[0].holders.is_empty());
    assert_eq!(
        Game::new(GAME, &mut store, &settings(&[DEFAULT_PACK, "Lost"], 3)).err(),
        Some(PackError::Corrupt)
    );
    assert!(store.loaded_packs[0].holders.is_empty());
}

#[test]
fn first_player_becomes_host() {
    let mut store = store();
    let mut game = Game::new(GAME, &mut store, &settings(&[DEFAULT_PACK], 3)).unwrap();
    let mut out = Vec::new();
    game.client_connected(&mut out, A);
    assert_eq!(game.host_id, A);
    assert_eq!(ids(&game), vec![A]);
    assert!(player(&game, A).is_host);
    assert_eq!(game.host_name(), "Player #a1a2a3a4-b1b2-c1c2-d1d2-d3d4d5d6d7d8");
    assert_eq!(
        out,
        vec![Frame {
            to: A,
            packets: vec![
                Player::new(A, true).as_packet(),
                ClientBoundPacket::SettingUpdate(GameSetting::MaxPlayers(None)),
                ClientBoundPacket::SettingUpdate(GameSetting::MaxSelectionTime(None)),
                ClientBoundPacket::SettingUpdate(GameSetting::PointsToWin(3)),
                ClientBoundPacket::SettingUpdate(GameSetting::AddPack(DEFAULT_PACK.to_owned())),
            ],
        }]
    );
}

#[test]
fn joiner_is_announced_to_the_others_and_told_of_everybody() {
    let mut store = store();
    let mut game = game_with(&mut store, &[DEFAULT_PACK], 3, &[A, B]);
    let mut out = Vec::new();
    game.client_connected(&mut out, C);
    assert_eq!(ids(&game), vec![A, B, C]);
    assert!(!player(&game, C).is_host);
    assert_eq!(game.host_id, A);
    assert_eq!(out.len(), 3);
    assert_eq!(out[0], Frame { to: A, packets: vec![Player::new(C, false).as_packet()] });
    assert_eq!(out[1], Frame { to: B, packets: vec![Player::new(C, false).as_packet()] });
    assert_eq!(out[2].to, C);
    assert_eq!(
        out[2].packets[..3],
        [
            Player::new(A, true).as_packet(),
            Player::new(B, false).as_packet(),
            Player::new(C, false).as_packet(),
        ]
    );
    assert_eq!(out[2].packets.len(), 3 + 4);
}

#[test]
fn connecting_twice_changes_nothing() {
    let mut store = store();
    let mut game = game_with(&mut store, &[DEFAULT_PACK], 3, &[A, B]);
    let mut out = Vec::new();
    game.client_connected(&mut out, B);
    assert_eq!(ids(&game), vec![A, B]);
    assert!(out.is_empty());
}

#[test]
fn only_the_host_starts_the_game() {
    let mut store = store();
    let mut game = game_with(&mut store, &[DEFAULT_PACK], 3, &[A, B]);
    let mut out = Vec::new();
    assert_eq!(game.start_game(&mut out, B), PacketResponse::Rejected);
    assert_eq!(game.start_game(&mut out, D), PacketResponse::Rejected);
    assert_eq!(game.state, GameState::WaitingToStart);
    assert!(out.is_empty());
    assert_eq!(game.start_game(&mut out, A), PacketResponse::Accepted);
    assert_eq!(game.state, GameState::Playing(PlayingState::PlayerSelection));
}

#[test]
fn a_game_without_cards_is_not_started() {
    let mut store = store();
    let mut game = game_with(&mut store, &["Empty"], 3, &[A, B]);
    let mut out = Vec::new();
    assert_eq!(
        game.start_game(&mut out, A),
        PacketResponse::RejectedWithReason("No packs selected".to_owned())
    );
    assert_eq!(game.state, GameState::WaitingToStart);
    assert!(out.is_empty());
}

#[test]
fn starting_deals_a_hand_to_every_player() {
    let mut store = store();
    let (game, out) = started(&mut store, &[DEFAULT_PACK], 3, &[A, B, C]);
    assert_eq!(game.state, GameState::Playing(PlayingState::PlayerSelection));
    assert!(game.czar_index < 3);
    assert_eq!(recipients(&out), vec![A, B, C]);
    let prompt = game.current_prompt.clone().unwrap();
    assert_eq!(prompt.pick, 1);
    let mut seen = Vec::new();
    for frame in &out {
        assert_eq!(frame.packets.len(), 2);
        assert_eq!(frame.packets[0], ClientBoundPacket::StartGame);
        match &frame.packets[1] {
            ClientBoundPacket::NextRound { czar: named, prompt: shown, new_responses } => {
                assert_eq!(*named, czar(&game));
                assert_eq!(shown, &prompt);
                assert_eq!(new_responses.len(), HAND_SIZE);
                for data in new_responses {
                    assert!(is_response(&game, data));
                    assert!(!seen.contains(&data.id));
                    assert!(!game.available_responses.contains(&data.id));
                    seen.push(data.id);
                }
            },
            other => panic!("expected NextRound, got {:?}", other),
        }
    }
    assert_eq!(seen.len() + game.available_responses.len(), 60);
    assert_eq!(game.available_prompts.len(), 4);
    assert!(no_duplicates(&game.available_responses));
    assert!(no_duplicates(&game.available_prompts));
}

#[test]
fn a_small_deck_is_refilled_when_it_runs_out() {
    let mut store = store();
    let (game, out) = started(&mut store, &["Tiny"], 3, &[A, B, C]);
    // Thirty cards from a deck of four: seven full cycles and two cards of the eighth.
    assert_eq!(game.available_responses.len(), 2);
    assert!(no_duplicates(&game.available_responses));
    let dealt: Vec<CardID> =
        out.iter().flat_map(|frame| hand_of(frame)).map(|data| data.id).collect();
    assert_eq!(dealt.len(), 30);
    for cycle in dealt.chunks(4) {
        assert!(no_duplicates(cycle));
    }
    for card in &dealt[28..] {
        assert!(!game.available_responses.contains(card));
    }
    // The one prompt was drawn; the pool is refilled at the next draw.
    assert!(game.available_prompts.is_empty());
}

#[test]
fn submitting_shows_the_responses_once_everybody_has() {
    let mut store = store();
    let (mut game, _) = started(&mut store, &[DEFAULT_PACK], 3, &[A, B, C]);
    let czar = czar(&game);
    let others: Vec<u128> = ids(&game).into_iter().filter(|id| *id != czar).collect();
    let mut out = Vec::new();
    assert_eq!(game.select_response(&mut out, others[0], some_card(5)), PacketResponse::Accepted);
    assert_eq!(out, broadcast(&[A, B, C], ClientBoundPacket::PlayerFinishedPicking(others[0])));
    assert_eq!(game.state, GameState::Playing(PlayingState::PlayerSelection));
    assert_eq!(player(&game, others[0]).selections, vec![some_card(5)]);

    let mut out = Vec::new();
    assert_eq!(game.select_response(&mut out, others[1], some_card(6)), PacketResponse::Accepted);
    assert_eq!(game.state, GameState::Playing(PlayingState::CzarSelection));
    let text = |n: usize| format!("{} response {}", DEFAULT_PACK, n);
    let shown = ClientBoundPacket::DisplayResponses(vec![
        Submission { player: others[0], responses: vec![ResponseData::new(some_card(5), text(5))] },
        Submission { player: others[1], responses: vec![ResponseData::new(some_card(6), text(6))] },
    ]);
    let mut expected = broadcast(&[A, B, C], ClientBoundPacket::PlayerFinishedPicking(others[1]));
    expected.extend(broadcast(&[A, B, C], shown));
    assert_eq!(out, expected);
}

#[test]
fn a_submission_is_rejected_when_it_is_not_the_senders_turn() {
    let mut store = store();
    let mut game = game_with(&mut store, &[DEFAULT_PACK], 3, &[A, B, C]);
    let mut out = Vec::new();
    // Not while waiting to start.
    assert_eq!(game.select_response(&mut out, B, some_card(0)), PacketResponse::Rejected);
    assert_eq!(game.start_game(&mut out, A), PacketResponse::Accepted);
    let czar = czar(&game);
    let other = ids(&game).into_iter().find(|id| *id != czar).unwrap();
    let mut out = Vec::new();
    // Not from the czar, not from a stranger, not a card that no pack has.
    assert_eq!(game.select_response(&mut out, czar, some_card(0)), PacketResponse::Rejected);
    assert_eq!(game.select_response(&mut out, D, some_card(0)), PacketResponse::Rejected);
    assert_eq!(game.select_response(&mut out, other, CardID::new(0, 60)), PacketResponse::Rejected);
    assert_eq!(game.select_response(&mut out, other, CardID::new(1, 0)), PacketResponse::Rejected);
    assert!(out.is_empty());
    assert!(player(&game, other).selections.is_empty());
    // Not more cards than the prompt asks for.
    assert_eq!(game.select_response(&mut out, other, some_card(0)), PacketResponse::Accepted);
    let mut out = Vec::new();
    assert_eq!(game.select_response(&mut out, other, some_card(1)), PacketResponse::Rejected);
    assert!(out.is_empty());
    assert_eq!(player(&game, other).selections, vec![some_card(0)]);
}

#[test]
fn a_prompt_that_picks_two_takes_two_cards() {
    let mut store = store();
    let (mut game, _) = started(&mut store, &["Pairs"], 3, &[A, B]);
    assert_eq!(game.current_prompt.as_ref().unwrap().pick, 2);
    let czar = czar(&game);
    let other = if czar == A { B } else { A };
    let mut out = Vec::new();
    assert_eq!(game.select_response(&mut out, other, some_card(1)), PacketResponse::Accepted);
    assert!(out.is_empty());
    assert_eq!(game.state, GameState::Playing(PlayingState::PlayerSelection));
    assert_eq!(game.select_response(&mut out, other, some_card(2)), PacketResponse::Accepted);
    assert_eq!(game.state, GameState::Playing(PlayingState::CzarSelection));
    assert_eq!(out.len(), 4);
    assert_eq!(game.select_response(&mut out, other, some_card(3)), PacketResponse::Rejected);
}

#[test]
fn single_round_game_ends_after_one_round() {
    let mut store = store();
    let (mut game, _) = started(&mut store, &[DEFAULT_PACK], 1, &[A, B]);
    let czar = czar(&game);
    let other = if czar == A { B } else { A };
    to_czar_selection(&mut game);
    let mut out = Vec::new();
    assert_eq!(game.select_round_winner(&mut out, czar, other), PacketResponse::Accepted);
    assert_eq!(game.state, GameState::End);
    assert_eq!(player(&game, other).points, 1);
    assert_eq!(
        out,
        broadcast(&[A, B], ClientBoundPacket::DisplayWinner { winner: other, end_game: true })
    );
}

#[test]
fn only_the_czar_names_a_winner_who_submitted() {
    let mut store = store();
    let (mut game, _) = started(&mut store, &[DEFAULT_PACK], 3, &[A, B, C]);
    let czar = czar(&game);
    let others: Vec<u128> = ids(&game).into_iter().filter(|id| *id != czar).collect();
    let mut out = Vec::new();
    // Not while the players are still choosing.
    assert_eq!(game.select_round_winner(&mut out, czar, others[0]), PacketResponse::Rejected);
    to_czar_selection(&mut game);
    assert_eq!(game.select_round_winner(&mut out, others[0], others[1]), PacketResponse::Rejected);
    assert_eq!(game.select_round_winner(&mut out, czar, czar), PacketResponse::Rejected);
    assert_eq!(
        game.select_round_winner(&mut out, czar, A ^ 0xff),
        PacketResponse::RejectedWithReason(
            "Invalid player ID: a1a2a3a4-b1b2-c1c2-d1d2-d3d4d5d6d727".to_owned()
        )
    );
    // A player who joined after the submissions were shown has not submitted.
    game.client_connected(&mut Vec::new(), D);
    assert_eq!(game.select_round_winner(&mut out, czar, D), PacketResponse::Rejected);
    assert!(out.is_empty());
    assert_eq!(game.state, GameState::Playing(PlayingState::CzarSelection));
    assert!(ids(&game).iter().all(|id| player(&game, *id).points == 0));
}

#[test]
fn a_round_win_starts_the_next_round() {
    let mut store = store();
    let (mut game, _) = started(&mut store, &["Pairs"], 3, &[A, B, C]);
    let first_czar = game.czar_index;
    let czar_id = czar(&game);
    let winner = ids(&game).into_iter().find(|id| *id != czar_id).unwrap();
    to_czar_selection(&mut game);
    let pool_before = game.available_responses.len();
    let mut out = Vec::new();
    assert_eq!(game.select_round_winner(&mut out, czar_id, winner), PacketResponse::Accepted);
    assert_eq!(game.state, GameState::Playing(PlayingState::PlayerSelection));
    assert_eq!(player(&game, winner).points, 1);
    assert_eq!(game.czar_index, (first_czar + 1) % 3);
    assert!(ids(&game).iter().all(|id| player(&game, *id).selections.is_empty()));
    assert_eq!(
        out[..3],
        broadcast(&[A, B, C], ClientBoundPacket::DisplayWinner { winner, end_game: false })[..]
    );
    assert_eq!(recipients(&out[3..]), vec![A, B, C]);
    let prompt = game.current_prompt.clone().unwrap();
    for (seat, frame) in out[3..].iter().enumerate() {
        assert_eq!(frame.packets.len(), 1);
        match &frame.packets[0] {
            ClientBoundPacket::NextRound { czar: named, prompt: shown, new_responses } => {
                assert_eq!(*named, czar(&game));
                assert_eq!(shown, &prompt);
                // Everybody but the last czar gets back as many cards as they played.
                assert_eq!(new_responses.len(), if seat == first_czar { 0 } else { 2 });
                assert!(new_responses.iter().all(|data| is_response(&game, data)));
            },
            other => panic!("expected NextRound, got {:?}", other),
        }
    }
    assert_eq!(game.available_responses.len(), pool_before - 4);
    assert!(no_duplicates(&game.available_responses));
}

#[test]
fn set_player_name_twice_is_accepted_twice() {
    let mut store = store();
    let mut game = game_with(&mut store, &[DEFAULT_PACK], 3, &[A, B]);
    let told = broadcast(&[A, B], ClientBoundPacket::UpdatePlayerName { id: B,
        name: "Bea".to_owned() });
    let mut out = Vec::new();
    assert_eq!(game.set_player_name(&mut out, B, "Bea"), PacketResponse::Accepted);
    assert_eq!(out, told);
    assert_eq!(player(&game, B).name, "Bea");
    let once = format!("{:?}", game.players.inner);
    let mut out = Vec::new();
    assert_eq!(game.set_player_name(&mut out, B, "Bea"), PacketResponse::Accepted);
    assert_eq!(out, told);
    assert_eq!(format!("{:?}", game.players.inner), once);
    assert_eq!(game.host_name(), "Player #a1a2a3a4-b1b2-c1c2-d1d2-d3d4d5d6d7d8");
}

#[test]
fn a_name_is_taken_in_every_state_but_only_by_players() {
    let mut store = store();
    let (mut game, _) = started(&mut store, &[DEFAULT_PACK], 1, &[A, B]);
    let mut out = Vec::new();
    assert_eq!(game.set_player_name(&mut out, A, "Ann"), PacketResponse::Accepted);
    assert_eq!(game.set_player_name(&mut out, D, "Dan"), PacketResponse::Rejected);
    assert_eq!(out.len(), 2);
    let czar = czar(&game);
    to_czar_selection(&mut game);
    assert_eq!(game.set_player_name(&mut out, B, "Bea"), PacketResponse::Accepted);
    let winner = if czar == A { B } else { A };
    assert_eq!(game.select_round_winner(&mut out, czar, winner), PacketResponse::Accepted);
    assert_eq!(game.state, GameState::End);
    assert_eq!(game.set_player_name(&mut out, B, "Bee"), PacketResponse::Accepted);
    assert_eq!(player(&game, B).name, "Bee");
    assert_eq!(game.host_name(), "Ann");
}

#[test]
fn the_host_changes_settings_while_the_game_waits() {
    let mut store = store();
    let mut game = game_with(&mut store, &[DEFAULT_PACK], 3, &[A, B]);
    for setting in [
        GameSetting::MaxPlayers(Some(2)),
        GameSetting::MaxPlayers(None),
        GameSetting::MaxSelectionTime(Some(30)),
        GameSetting::PointsToWin(7),
    ] {
        let mut out = Vec::new();
        assert_eq!(game.update_setting(&mut out, &mut store, B, &setting),
            PacketResponse::Rejected);
        assert!(out.is_empty());
        assert_eq!(game.update_setting(&mut out, &mut store, A, &setting),
            PacketResponse::Accepted);
        assert_eq!(out, broadcast(&[A, B], ClientBoundPacket::SettingUpdate(setting.clone())));
    }
    assert_eq!(game.max_players, None);
    assert_eq!(game.max_selection_time, Some(30));
    assert_eq!(game.points_to_win, 7);
}

#[test]
fn settings_out_of_range_are_refused_with_a_reason() {
    let mut store = store();
    let mut game = game_with(&mut store, &[DEFAULT_PACK], 3, &[A, B]);
    let mut out = Vec::new();
    assert_eq!(
        game.update_setting(&mut out, &mut store, A, &GameSetting::MaxPlayers(Some(1))),
        PacketResponse::RejectedWithReason("Max players needs to be at least 2".to_owned())
    );
    assert_eq!(
        game.update_setting(&mut out, &mut store, A, &GameSetting::PointsToWin(0)),
        PacketResponse::RejectedWithReason("Point to win has to be at least 1".to_owned())
    );
    assert!(out.is_empty());
    assert_eq!(game.max_players, None);
    assert_eq!(game.points_to_win, 3);
}

#[test]
fn packs_are_added_and_removed_through_the_store() {
    let mut store = store();
    let mut game = game_with(&mut store, &[DEFAULT_PACK], 3, &[A]);
    let add = |name: &str| GameSetting::AddPack(name.to_owned());
    let mut out = Vec::new();
    assert_eq!(game.update_setting(&mut out, &mut store, A, &add("Pairs")),
        PacketResponse::Accepted);
    assert_eq!(out, broadcast(&[A], ClientBoundPacket::SettingUpdate(add("Pairs"))));
    assert_eq!(game.packs.len(), 2);
    assert_eq!(game.packs[1].name, "Pairs");
    assert!(store.is_loaded("Pairs"));
    // A pack that the game has already, one that does not exist, one that cannot be read.
    let mut out = Vec::new();
    assert_eq!(game.update_setting(&mut out, &mut store, A, &add("Pairs")),
        PacketResponse::Rejected);
    assert_eq!(
        game.update_setting(&mut out, &mut store, A, &add("Nope")),
        PacketResponse::RejectedWithReason("Failed to load pack Nope: pack is not found".to_owned())
    );
    assert_eq!(
        game.update_setting(&mut out, &mut store, A, &add("Lost")),
        PacketResponse::RejectedWithReason(
            "Failed to load pack Lost: pack could not be read".to_owned()
        )
    );
    assert!(out.is_empty());
    assert_eq!(game.packs.len(), 2);
    let remove = GameSetting::RemovePack("Pairs".to_owned());
    assert_eq!(game.update_setting(&mut out, &mut store, A, &remove), PacketResponse::Accepted);
    assert_eq!(out, broadcast(&[A], ClientBoundPacket::SettingUpdate(remove)));
    assert_eq!(game.packs.len(), 1);
    assert_eq!(game.packs[0].name, DEFAULT_PACK);
    assert!(!store.is_loaded("Pairs"));
}

#[test]
fn settings_are_fixed_once_the_game_has_started() {
    let mut store = store();
    let (mut game, _) = started(&mut store, &[DEFAULT_PACK], 3, &[A, B]);
    let mut out = Vec::new();
    assert_eq!(
        game.update_setting(&mut out, &mut store, A, &GameSetting::PointsToWin(9)),
        PacketResponse::Rejected
    );
    assert_eq!(game.start_game(&mut out, A), PacketResponse::Rejected);
    assert_eq!(game.leave_game(&mut out, B), PacketResponse::Rejected);
    assert!(out.is_empty());
    assert_eq!(game.points_to_win, 3);
}

#[test]
fn host_leaving_makes_the_next_player_host() {
    let mut store = store();
    let mut game = game_with(&mut store, &[DEFAULT_PACK], 3, &[A, B, C]);
    let mut out = Vec::new();
    game.client_disconnected(&mut out, A);
    assert_eq!(out, broadcast(&[B, C], ClientBoundPacket::RemovePlayer { id: A,
        new_host: Some(B) }));
    assert_eq!(ids(&game), vec![B, C]);
    assert_eq!(game.host_id, B);
    assert!(player(&game, B).is_host);
    assert!(!player(&game, C).is_host);
    assert_eq!(game.state, GameState::WaitingToStart);
    let mut out = Vec::new();
    assert_eq!(game.start_game(&mut out, C), PacketResponse::Rejected);
    assert_eq!(game.start_game(&mut out, B), PacketResponse::Accepted);
}

#[test]
fn a_player_leaving_is_announced_without_a_new_host() {
    let mut store = store();
    let mut game = game_with(&mut store, &[DEFAULT_PACK], 3, &[A, B, C]);
    let mut out = Vec::new();
    game.client_disconnected(&mut out, B);
    assert_eq!(out, broadcast(&[A, C], ClientBoundPacket::RemovePlayer { id: B, new_host: None }));
    assert_eq!(ids(&game), vec![A, C]);
    assert_eq!(game.host_id, A);
    let mut out = Vec::new();
    game.client_disconnected(&mut out, D);
    assert!(out.is_empty());
    assert_eq!(ids(&game), vec![A, C]);
}

#[test]
fn last_player_leaving_ends_the_game() {
    let mut store = store();
    let (mut game, _) = started(&mut store, &[DEFAULT_PACK], 3, &[A, B]);
    let mut out = Vec::new();
    game.client_disconnected(&mut out, A);
    assert!(!game.is_terminated());
    let mut out = Vec::new();
    game.client_disconnected(&mut out, B);
    assert!(out.is_empty());
    assert_eq!(game.state, GameState::End);
    assert_eq!(game.num_players(), 0);
    assert!(game.is_terminated());
}

#[test]
fn czar_leaving_cancels_the_round() {
    let mut store = store();
    let (mut game, _) = started(&mut store, &[DEFAULT_PACK], 3, &[A, B, C]);
    let seat = game.czar_index;
    let czar_id = czar(&game);
    let stay: Vec<u128> = ids(&game).into_iter().filter(|id| *id != czar_id).collect();
    let mut out = Vec::new();
    assert_eq!(game.select_response(&mut out, stay[0], some_card(3)), PacketResponse::Accepted);
    let mut out = Vec::new();
    game.client_disconnected(&mut out, czar_id);
    assert_eq!(ids(&game), stay);
    assert_eq!(game.state, GameState::Playing(PlayingState::PlayerSelection));
    // The player who sat after the czar is the new czar.
    assert_eq!(game.czar_index, seat % 2);
    assert_eq!(czar(&game), [A, B, C, A][seat + 1]);
    assert!(player(&game, stay[0]).selections.is_empty());
    let new_host = if czar_id == A { Some(B) } else { None };
    let mut expected = broadcast(&stay, ClientBoundPacket::RemovePlayer { id: czar_id, new_host });
    expected.extend(broadcast(&stay, ClientBoundPacket::CancelRound));
    expected.extend(broadcast(
        &stay,
        ClientBoundPacket::NextRound {
            czar: czar(&game),
            prompt: game.current_prompt.clone().unwrap(),
            new_responses: vec![],
        },
    ));
    assert_eq!(out, expected);
}

#[test]
fn a_player_leaving_keeps_the_czar() {
    let mut store = store();
    let (mut game, _) = started(&mut store, &[DEFAULT_PACK], 3, &[A, B, C, D]);
    let czar_id = czar(&game);
    let leaver = ids(&game).into_iter().find(|id| *id != czar_id).unwrap();
    let prompt = game.current_prompt.clone();
    let mut out = Vec::new();
    game.client_disconnected(&mut out, leaver);
    assert_eq!(czar(&game), czar_id);
    assert_eq!(game.current_prompt, prompt);
    assert_eq!(game.state, GameState::Playing(PlayingState::PlayerSelection));
    assert_eq!(out.len(), 3);
}

#[test]
fn joining_during_player_selection_gets_the_round() {
    let mut store = store();
    let (mut game, _) = started(&mut store, &[DEFAULT_PACK], 3, &[A, B]);
    let pool = game.available_responses.len();
    let mut out = Vec::new();
    game.client_connected(&mut out, C);
    assert_eq!(recipients(&out), vec![A, B, C]);
    let burst = &out[2].packets;
    assert_eq!(burst.len(), 3 + 4 + 1);
    match &burst[7] {
        ClientBoundPacket::NextRound { czar: named, prompt, new_responses } => {
            assert_eq!(*named, czar(&game));
            assert_eq!(Some(prompt), game.current_prompt.as_ref());
            assert_eq!(new_responses.len(), HAND_SIZE);
            assert!(new_responses.iter().all(|data| is_response(&game, data)));
        },
        other => panic!("expected NextRound, got {:?}", other),
    }
    assert_eq!(game.available_responses.len(), pool - HAND_SIZE);
    assert_eq!(game.state, GameState::Playing(PlayingState::PlayerSelection));
}

#[test]
fn joining_during_czar_selection_gets_the_submissions() {
    let mut store = store();
    let (mut game, _) = started(&mut store, &[DEFAULT_PACK], 3, &[A, B]);
    let czar_id = czar(&game);
    let other = if czar_id == A { B } else { A };
    to_czar_selection(&mut game);
    let mut out = Vec::new();
    game.client_connected(&mut out, C);
    let burst = &out[2].packets;
    assert_eq!(burst.len(), 3 + 4 + 2);
    match &burst[7] {
        ClientBoundPacket::NextRound { czar: named, prompt, new_responses } => {
            assert_eq!(*named, czar_id);
            assert_eq!(Some(prompt), game.current_prompt.as_ref());
            assert_eq!(new_responses.len(), HAND_SIZE);
        },
        other => panic!("expected NextRound, got {:?}", other),
    }
    assert_eq!(
        burst[8],
        ClientBoundPacket::DisplayResponses(vec![Submission {
            player: other,
            responses: vec![ResponseData::new(
                some_card(0),
                format!("{} response 0", DEFAULT_PACK)
            )],
        }])
    );
    assert_eq!(game.state, GameState::Playing(PlayingState::CzarSelection));
}

#[test]
fn an_ended_game_is_left_or_started_over() {
    let mut store = store();
    let (mut game, _) = started(&mut store, &[DEFAULT_PACK], 1, &[A, B, C]);
    let czar_id = czar(&game);
    let winner = ids(&game).into_iter().find(|id| *id != czar_id).unwrap();
    to_czar_selection(&mut game);
    let mut out = Vec::new();
    assert_eq!(game.select_round_winner(&mut out, czar_id, winner), PacketResponse::Accepted);
    assert_eq!(game.state, GameState::End);
    let mut out = Vec::new();
    assert_eq!(game.select_response(&mut out, winner, some_card(9)), PacketResponse::Rejected);
    assert_eq!(game.leave_game(&mut out, D), PacketResponse::Rejected);
    assert!(out.is_empty());
    assert_eq!(game.leave_game(&mut out, C), PacketResponse::Accepted);
    assert_eq!(out, broadcast(&[A, B], ClientBoundPacket::RemovePlayer { id: C, new_host: None }));
    assert_eq!(game.state, GameState::End);
    let mut out = Vec::new();
    assert_eq!(game.start_game(&mut out, B), PacketResponse::Rejected);
    assert_eq!(game.start_game(&mut out, A), PacketResponse::Accepted);
    assert_eq!(game.state, GameState::Playing(PlayingState::PlayerSelection));
    assert!(ids(&game).iter().all(|id| player(&game, *id).points == 0));
    assert!(ids(&game).iter().all(|id| player(&game, *id).selections.is_empty()));
    assert_eq!(out.len(), 2);
    assert_eq!(game.available_responses.len(), 60 - 2 * HAND_SIZE);
}

#[test]
fn handle_packet_routes_by_kind() {
    let mut store = store();
    let mut game = game_with(&mut store, &[DEFAULT_PACK], 3, &[A, B]);
    let mut out = Vec::new();
    let mut handle = |game: &mut Game, store: &mut PackStore, packet: ServerBoundPacket,
        sender: u128| {
        game.handle_packet(&mut out, store, &packet, sender)
    };
    for packet in [
        ServerBoundPacket::CreateServer(settings(&[DEFAULT_PACK], 1)),
        ServerBoundPacket::JoinGame(GAME),
        ServerBoundPacket::RefreshServerList,
        ServerBoundPacket::RequestCardPacks,
    ] {
        assert_eq!(handle(&mut game, &mut store, packet, A), PacketResponse::Rejected);
    }
    assert_eq!(
        handle(&mut game, &mut store, ServerBoundPacket::SetPlayerName("Ann".to_owned()), A),
        PacketResponse::Accepted
    );
    assert_eq!(
        handle(&mut game, &mut store,
            ServerBoundPacket::UpdateSetting(GameSetting::PointsToWin(1)), A),
        PacketResponse::Accepted
    );
    assert_eq!(handle(&mut game, &mut store, ServerBoundPacket::LeaveGame, A),
        PacketResponse::Rejected);
    assert_eq!(handle(&mut game, &mut store, ServerBoundPacket::StartGame, B),
        PacketResponse::Rejected);
    assert_eq!(handle(&mut game, &mut store, ServerBoundPacket::StartGame, A),
        PacketResponse::Accepted);
    let czar_id = czar(&game);
    let other = if czar_id == A { B } else { A };
    assert_eq!(
        handle(&mut game, &mut store, ServerBoundPacket::SelectResponse(some_card(1)), other),
        PacketResponse::Accepted
    );
    assert_eq!(
        handle(&mut game, &mut store, ServerBoundPacket::SelectRoundWinner(other), czar_id),
        PacketResponse::Accepted
    );
    assert_eq!(game.state, GameState::End);
    assert_eq!(player(&game, A).name, "Ann");
    assert_eq!(handle(&mut game, &mut store, ServerBoundPacket::LeaveGame, A),
        PacketResponse::Accepted);
    assert_eq!(game.host_id, B);
}

#[test]
fn the_czar_submits_nothing_and_is_never_shown() {
    let mut store = store();
    let (mut game, _) = started(&mut store, &[DEFAULT_PACK], 5, &[A, B, C]);
    for _ in 0..4 {
        let czar_id = czar(&game);
        assert!(player(&game, czar_id).selections.is_empty());
        to_czar_selection(&mut game);
        assert!(player(&game, czar_id).selections.is_empty());
        let mut out = Vec::new();
        game.client_connected(&mut out, D);
        match out.last().unwrap().packets.last().unwrap() {
            ClientBoundPacket::DisplayResponses(shown) => {
                assert_eq!(shown.len(), 2);
                assert!(shown.iter().all(|submission| submission.player != czar_id));
            },
            other => panic!("expected DisplayResponses, got {:?}", other),
        }
        game.client_disconnected(&mut Vec::new(), D);
        let winner = ids(&game).into_iter().find(|id| *id != czar_id).unwrap();
        let mut out = Vec::new();
        assert_eq!(game.select_round_winner(&mut out, czar_id, winner), PacketResponse::Accepted);
        if game.state == GameState::End {
            break;
        }
    }
}
