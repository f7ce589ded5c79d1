use cfh::cards::{Pack, PackMeta, Prompt};
use cfh::clients::ClientHandler;
use cfh::game::GameState;
use cfh::lobby::{AddGameError, Lobby};
use cfh::pack_store::{CatalogEntry, PackError, PackStore, DEFAULT_PACK};
use cfh::protocol::{
    ClientBoundPacket, Frame, GameSettings, PackInfo, PacketResponse, ServerBoundPacket,
    ServerInfo,
};

const LOBBY: u128 = 1000;
const A: u128 = 1;
const B: u128 = 2;

fn pack(name: &str, prompts: usize, responses: usize) -> Pack {
    Pack {
        name: name.to_owned(),
        official: true,
        responses: (0..responses).map(|i| format!("{} response {}", name, i)).collect(),
        prompts: (0..prompts).map(|i| Prompt { text: format!("{} prompt {}", name, i),
            pick: 1 }).collect(),
    }
}

fn entry(name: &str, prompts: usize, responses: usize) -> CatalogEntry {
    CatalogEntry {
        name: name.to_owned(),
        meta: PackMeta { official: true, num_prompts: prompts, num_responses: responses },
    }
}

fn lobby() -> Lobby {
    let catalog = vec![entry(DEFAULT_PACK, 5, 60), entry("Animals", 2, 30), entry("Lost", 1, 1)];
    let mut store = PackStore::new(catalog, Some(pack(DEFAULT_PACK, 5, 60))).unwrap();
    assert!(store.stage(pack("Animals", 2, 30)));
    Lobby::new(LOBBY, store)
}

fn clients(ids: &[u128]) -> ClientHandler {
    let mut handler = ClientHandler::new();
    for id in ids {
        assert!(handler.add_client_with_id(*id, LOBBY));
    }
    handler.take_outbox();
    handler
}

fn settings(packs: &[&str], points_to_win: u32, max_players: Option<usize>) -> GameSettings {
    GameSettings {
        max_players,
        max_selection_time: None,
        points_to_win,
        packs: packs.iter().map(|name| (*name).to_owned()).collect(),
    }
}

fn catalog_packet() -> ClientBoundPacket {
    ClientBoundPacket::CardPacks(vec![
        PackInfo { name: DEFAULT_PACK.to_owned(), num_prompts: 5, num_responses: 60 },
        PackInfo { name: "Animals".to_owned(), num_prompts: 2, num_responses: 30 },
        PackInfo { name: "Lost".to_owned(), num_prompts: 1, num_responses: 1 },
    ])
}

fn loaded_names(lobby: &Lobby) -> Vec<String> {
    lobby.pack_store.loaded_packs.iter().map(|loaded| loaded.pack.name.clone()).collect()
}

#[test]
fn a_client_is_greeted_with_the_games_and_the_packs() {
    let mut lobby = lobby();
    let mut handler = clients(&[A]);
    lobby.client_connected(&mut handler, A);
    assert_eq!(
        handler.take_outbox(),
        vec![
            Frame { to: A, packets: vec![ClientBoundPacket::ServerList { servers: vec![] }] },
            Frame { to: A, packets: vec![catalog_packet()] },
        ]
    );
    lobby.client_connected(&mut handler, B);
    assert!(handler.take_outbox().is_empty());
    lobby.client_disconnected(A);
    assert!(!lobby.is_terminated());
}

#[test]
fn empty_pack_list_is_rejected_with_a_reason() {
    let mut lobby = lobby();
    let mut handler = clients(&[A]);
    let packet = ServerBoundPacket::CreateServer(settings(&[], 10, None));
    assert_eq!(
        lobby.handle_packet(&mut handler, &packet, A),
        PacketResponse::RejectedWithReason("Packs cannot be empty".to_owned())
    );
    assert!(lobby.games.is_empty());
    assert!(handler.take_outbox().is_empty());
    assert_eq!(handler.get_client(A).unwrap().listener, LOBBY);
    assert_eq!(loaded_names(&lobby), vec![DEFAULT_PACK.to_owned()]);
}

#[test]
fn settings_are_checked_in_order() {
    let refused = |settings: &GameSettings| Lobby::check_settings(settings);
    assert_eq!(
        refused(&settings(&[], 0, Some(1))),
        Some(PacketResponse::RejectedWithReason("Packs cannot be empty".to_owned()))
    );
    assert_eq!(
        refused(&settings(&["Animals"], 0, Some(1))),
        Some(PacketResponse::RejectedWithReason("Point to win has to be at least 1".to_owned()))
    );
    assert_eq!(
        refused(&settings(&["Animals"], 1, Some(1))),
        Some(PacketResponse::RejectedWithReason("Max players needs to be at least 2".to_owned()))
    );
    assert_eq!(refused(&settings(&["Animals"], 1, Some(2))), None);
    assert_eq!(refused(&settings(&["Animals"], 1, None)), None);
}

#[test]
fn creating_a_game_binds_the_creator_to_it_as_host() {
    let mut lobby = lobby();
    let mut handler = clients(&[A, B]);
    let created = lobby.create_server(&mut handler, &settings(&[DEFAULT_PACK, "Animals"], 2,
        Some(4)), A, 7);
    assert_eq!(created, PacketResponse::Accepted);
    assert_eq!(lobby.games.len(), 1);
    let game = &lobby.games[0];
    assert_eq!(game.id, 7);
    assert_eq!(game.host_id, A);
    assert_eq!(game.num_players(), 1);
    assert_eq!(game.state, GameState::WaitingToStart);
    assert_eq!(handler.get_client(A).unwrap().listener, 7);
    assert_eq!(handler.get_client(B).unwrap().listener, LOBBY);
    assert!(lobby.valid_listener(7));
    assert!(lobby.valid_listener(LOBBY));
    assert!(!lobby.valid_listener(8));
    assert_eq!(lobby.find_game(7), Some(0));
    assert_eq!(loaded_names(&lobby), vec![DEFAULT_PACK.to_owned(), "Animals".to_owned()]);
    let frames = handler.take_outbox();
    assert_eq!(frames.len(), 1);
    assert_eq!(frames[0].to, A);
    assert_eq!(frames[0].packets.len(), 1 + 3 + 2);
    assert_eq!(
        lobby.server_list(),
        vec![ServerInfo {
            id: 7,
            host_name: "Player #00000000-0000-0000-0000-000000000001".to_owned(),
            num_players: 1,
            max_players: Some(4),
        }]
    );
}

#[test]
fn a_game_is_not_created_for_a_stranger_or_under_a_taken_id() {
    let mut lobby = lobby();
    let mut handler = clients(&[A, B]);
    let wanted = settings(&[DEFAULT_PACK], 2, None);
    assert_eq!(lobby.create_server(&mut handler, &wanted, 99, 7), PacketResponse::Rejected);
    assert_eq!(
        lobby.create_server(&mut handler, &wanted, A, LOBBY),
        PacketResponse::RejectedWithReason("Error creating new game".to_owned())
    );
    assert!(lobby.games.is_empty());
    assert_eq!(lobby.create_server(&mut handler, &wanted, A, 7), PacketResponse::Accepted);
    assert_eq!(
        lobby.create_server(&mut handler, &wanted, B, 7),
        PacketResponse::RejectedWithReason("Error creating new game".to_owned())
    );
    assert_eq!(lobby.games.len(), 1);
    assert_eq!(handler.get_client(B).unwrap().listener, LOBBY);
}

#[test]
fn a_pack_that_cannot_be_loaded_fails_the_creation_and_unloads_the_rest() {
    let mut lobby = lobby();
    let mut handler = clients(&[A]);
    for missing in ["Lost", "Nope"] {
        assert_eq!(
            lobby.create_server(&mut handler, &settings(&["Animals", missing], 2, None), A, 7),
            PacketResponse::RejectedWithReason("Error creating new game".to_owned())
        );
        assert!(lobby.games.is_empty());
        assert_eq!(handler.get_client(A).unwrap().listener, LOBBY);
        assert!(handler.take_outbox().is_empty());
        assert_eq!(loaded_names(&lobby), vec![DEFAULT_PACK.to_owned()]);
        assert!(lobby.pack_store.stage(pack("Animals", 2, 30)));
    }
}

#[test]
fn add_game_says_why_it_failed() {
    let mut lobby = lobby();
    assert_eq!(lobby.add_game(&settings(&[], 2, None), 7), Err(AddGameError::Settings));
    assert_eq!(lobby.add_game(&settings(&[DEFAULT_PACK], 2, None), LOBBY),
        Err(AddGameError::IdTaken));
    assert_eq!(
        lobby.add_game(&settings(&["Nope"], 2, None), 7),
        Err(AddGameError::Pack(PackError::NotFound))
    );
    assert_eq!(
        lobby.add_game(&settings(&["Lost"], 2, None), 7),
        Err(AddGameError::Pack(PackError::Corrupt))
    );
    assert_eq!(lobby.add_game(&settings(&[DEFAULT_PACK], 2, None), 7), Ok(0));
    assert_eq!(lobby.add_game(&settings(&[DEFAULT_PACK], 2, None), 7), Err(AddGameError::IdTaken));
    assert_eq!(lobby.add_game(&settings(&[DEFAULT_PACK], 2, None), 8), Ok(1));
}

#[test]
fn joining_binds_the_client_to_the_game() {
    let mut lobby = lobby();
    let mut handler = clients(&[A, B]);
    lobby.create_server(&mut handler, &settings(&[DEFAULT_PACK], 2, None), A, 7);
    handler.take_outbox();
    assert_eq!(
        lobby.handle_packet(&mut handler, &ServerBoundPacket::JoinGame(8), B),
        PacketResponse::RejectedWithReason("Invalid server id".to_owned())
    );
    assert_eq!(lobby.handle_packet(&mut handler, &ServerBoundPacket::JoinGame(7), 99),
        PacketResponse::Rejected);
    assert!(handler.take_outbox().is_empty());
    assert_eq!(lobby.handle_packet(&mut handler, &ServerBoundPacket::JoinGame(7), B),
        PacketResponse::Accepted);
    assert_eq!(handler.get_client(B).unwrap().listener, 7);
    assert_eq!(lobby.games[0].num_players(), 2);
    let frames = handler.take_outbox();
    assert_eq!(frames.iter().map(|frame| frame.to).collect::<Vec<_>>(), vec![A, B]);
    assert_eq!(lobby.server_list()[0].num_players, 2);
}

#[test]
fn lists_are_sent_on_request() {
    let mut lobby = lobby();
    let mut handler = clients(&[A]);
    assert_eq!(
        lobby.handle_packet(&mut handler, &ServerBoundPacket::RequestCardPacks, A),
        PacketResponse::Accepted
    );
    assert_eq!(handler.take_outbox(), vec![Frame { to: A, packets: vec![catalog_packet()] }]);
    assert_eq!(
        lobby.handle_packet(&mut handler, &ServerBoundPacket::RefreshServerList, A),
        PacketResponse::Accepted
    );
    assert_eq!(
        handler.take_outbox(),
        vec![Frame { to: A, packets: vec![ClientBoundPacket::ServerList { servers: vec![] }] }]
    );
}

#[test]
fn packets_for_a_game_are_rejected_in_the_lobby() {
    let mut lobby = lobby();
    let mut handler = clients(&[A]);
    for packet in [
        ServerBoundPacket::StartGame,
        ServerBoundPacket::LeaveGame,
        ServerBoundPacket::SetPlayerName("Ann".to_owned()),
        ServerBoundPacket::SelectRoundWinner(A),
    ] {
        assert_eq!(lobby.handle_packet(&mut handler, &packet, A), PacketResponse::Rejected);
    }
    assert!(handler.take_outbox().is_empty());
}

#[test]
fn a_deserted_game_is_swept_and_its_packs_are_unloaded() {
    let mut lobby = lobby();
    let mut handler = clients(&[A, B]);
    lobby.create_server(&mut handler, &settings(&[DEFAULT_PACK, "Animals"], 2, None), A, 7);
    lobby.create_server(&mut handler, &settings(&[DEFAULT_PACK], 2, None), B, 8);
    let mut out = Vec::new();
    lobby.game_disconnected(&mut out, 0, A);
    assert!(lobby.games[0].is_terminated());
    assert_eq!(lobby.handles, vec![7, 8]);
    // Not listed any more, and not dropped while a client is bound to it.
    assert_eq!(lobby.server_list().iter().map(|server| server.id).collect::<Vec<_>>(), vec![8]);
    assert_eq!(lobby.handles, vec![8]);
    lobby.reap(&handler);
    assert_eq!(lobby.games.len(), 2);
    assert!(lobby.pack_store.is_loaded("Animals"));
    handler.remove_client(A);
    lobby.reap(&handler);
    assert_eq!(lobby.games.iter().map(|game| game.id).collect::<Vec<_>>(), vec![8]);
    assert_eq!(loaded_names(&lobby), vec![DEFAULT_PACK.to_owned()]);
    assert_eq!(lobby.pack_store.loaded_packs[0].holders, vec![8]);
    assert!(!lobby.valid_listener(7));
}

#[test]
fn every_loaded_pack_is_used_by_a_game() {
    let mut lobby = lobby();
    let mut handler = clients(&[A, B]);
    lobby.create_server(&mut handler, &settings(&["Animals"], 2, None), A, 7);
    lobby.create_server(&mut handler, &settings(&["Animals", DEFAULT_PACK], 2, None), B, 8);
    let used = |lobby: &Lobby| {
        lobby.pack_store.loaded_packs.iter().all(|loaded| {
            loaded.pack.name == DEFAULT_PACK
                || lobby
                    .games
                    .iter()
                    .any(|game| game.packs.iter().any(|pack| pack.name == loaded.pack.name))
        })
    };
    assert!(used(&lobby));
    lobby.remove_game(0);
    assert!(lobby.pack_store.is_loaded("Animals"));
    assert!(used(&lobby));
    lobby.remove_game(0);
    assert!(!lobby.pack_store.is_loaded("Animals"));
    assert!(used(&lobby));
}

#[test]
fn greeting_a_client_drops_the_handles_of_deserted_games() {
    let mut lobby = lobby();
    let mut handler = clients(&[A, B, 3, 4]);
    lobby.create_server(&mut handler, &settings(&[DEFAULT_PACK], 2, None), A, 7);
    lobby.create_server(&mut handler, &settings(&[DEFAULT_PACK], 2, Some(5)), B, 8);
    lobby.create_server(&mut handler, &settings(&[DEFAULT_PACK], 2, None), 3, 9);
    assert_eq!(lobby.handles, vec![7, 8, 9]);
    // The last players of the first and the last game leave.
    let mut out = Vec::new();
    lobby.game_disconnected(&mut out, 0, A);
    lobby.game_disconnected(&mut out, 2, 3);
    assert!(lobby.games[0].is_terminated() && lobby.games[2].is_terminated());
    assert_eq!(lobby.handles, vec![7, 8, 9]);
    handler.take_outbox();
    let loaded = loaded_names(&lobby);

    lobby.client_connected(&mut handler, 4);
    assert_eq!(lobby.handles, vec![8]);
    // The listeners and the loaded packs are as they were.
    assert_eq!(lobby.games.iter().map(|game| game.id).collect::<Vec<_>>(), vec![7, 8, 9]);
    assert!(lobby.valid_listener(7) && lobby.valid_listener(9));
    assert_eq!(loaded_names(&lobby), loaded);
    assert_eq!(lobby.pack_store.loaded_packs[0].holders, vec![7, 8, 9]);
    let frames = handler.take_outbox();
    assert_eq!(frames.len(), 2);
    assert_eq!(
        frames[0],
        Frame {
            to: 4,
            packets: vec![ClientBoundPacket::ServerList {
                servers: vec![ServerInfo {
                    id: 8,
                    host_name: "Player #00000000-0000-0000-0000-000000000002".to_owned(),
                    num_players: 1,
                    max_players: Some(5),
                }],
            }],
        }
    );
    assert_eq!(frames[1], Frame { to: 4, packets: vec![catalog_packet()] });
}

#[test]
fn refreshing_the_list_sweeps_the_handles_only() {
    let mut lobby = lobby();
    let mut handler = clients(&[A, B]);
    lobby.create_server(&mut handler, &settings(&[DEFAULT_PACK, "Animals"], 2, None), A, 7);
    lobby.game_disconnected(&mut Vec::new(), 0, A);
    handler.take_outbox();
    assert_eq!(
        lobby.handle_packet(&mut handler, &ServerBoundPacket::RefreshServerList, B),
        PacketResponse::Accepted
    );
    assert_eq!(
        handler.take_outbox(),
        vec![Frame { to: B, packets: vec![ClientBoundPacket::ServerList { servers: vec![] }] }]
    );
    assert!(lobby.handles.is_empty());
    assert_eq!(lobby.games.len(), 1);
    assert!(lobby.valid_listener(7));
    assert!(lobby.pack_store.is_loaded("Animals"));
    // The lobby has no handle on the game any more, though a client could still join it.
    lobby.sweep();
    assert!(lobby.handles.is_empty());
    handler.remove_client(A);
    lobby.reap(&handler);
    assert!(lobby.games.is_empty());
    assert!(!lobby.pack_store.is_loaded("Animals"));
}

#[test]
fn dropping_a_game_drops_its_handle() {
    let mut lobby = lobby();
    assert_eq!(lobby.add_game(&settings(&[DEFAULT_PACK], 2, None), 7), Ok(0));
    assert_eq!(lobby.add_game(&settings(&[DEFAULT_PACK], 2, None), 8), Ok(1));
    assert_eq!(lobby.handles, vec![7, 8]);
    lobby.remove_game(0);
    assert_eq!(lobby.handles, vec![8]);
    assert_eq!(lobby.server_list().len(), 1);
}
