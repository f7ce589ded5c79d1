use cfh::cards::{Pack, PackMeta, Prompt};
use cfh::clients::{Client, ClientEvent, ClientEventData};
use cfh::game::{GameState, PlayingState};
use cfh::lobby::AddGameError;
use cfh::network::NetworkHandler;
use cfh::pack_store::{CatalogEntry, PackStore, DEFAULT_PACK};
use cfh::protocol::{
    ClientBoundPacket, Frame, GameSetting, GameSettings, PacketResponse, ServerBoundPacket,
    WrappedServerBoundPacket,
};

const LOBBY: u128 = 1000;
const A: u128 = 1;
const B: u128 = 2;
const C: u128 = 3;

fn pack(name: &str, prompts: usize, responses: usize) -> Pack {
    Pack {
        name: name.to_owned(),
        official: true,
        responses: (0..responses).map(|i| format!("{} response {}", name, i)).collect(),
        prompts: (0..prompts).map(|i| Prompt { text: format!("{} prompt {}", name, i),
            pick: 1 }).collect(),
    }
}

fn entry(name: &str, official: bool) -> CatalogEntry {
    CatalogEntry { name: name.to_owned(), meta: PackMeta { official, num_prompts: 1,
        num_responses: 1 } }
}

fn store() -> PackStore {
    let catalog = vec![entry(DEFAULT_PACK, true), entry("Animals", true), entry("Homemade", false)];
    PackStore::new(catalog, Some(pack(DEFAULT_PACK, 5, 60))).unwrap()
}

fn hub(clients: &[u128]) -> NetworkHandler {
    let mut hub = NetworkHandler::with_lobby_id(LOBBY, store());
    for id in clients {
        assert!(hub.add_client_with_id(*id));
        hub.handle_event(&ClientEvent::connect(*id));
    }
    hub.take_outbox();
    hub
}

fn settings(packs: &[&str], points_to_win: u32) -> GameSettings {
    GameSettings {
        max_players: None,
        max_selection_time: None,
        points_to_win,
        packs: packs.iter().map(|name| (*name).to_owned()).collect(),
    }
}

fn raw(packet: ServerBoundPacket) -> WrappedServerBoundPacket {
    WrappedServerBoundPacket::Raw(packet)
}

fn ack(packet_id: u128, response: PacketResponse) -> ClientBoundPacket {
    ClientBoundPacket::Ack { packet_id, response }
}

fn send(hub: &mut NetworkHandler, client: u128,
    packets: Vec<WrappedServerBoundPacket>) -> Vec<Frame> {
    hub.handle_messages(&vec![ClientEvent::message(packets, client)]);
    hub.take_outbox()
}

fn listener_of(hub: &NetworkHandler, client: u128) -> u128 {
    hub.client_handler.get_client(client).unwrap().listener
}

/// A and B in a game that A created, nothing waiting in the outbox.
fn hub_with_game(points_to_win: u32) -> (NetworkHandler, u128) {
    let mut hub = hub(&[A, B]);
    let frames = send(&mut hub, A, vec![ServerBoundPacket::CreateServer(settings(&[DEFAULT_PACK],
        points_to_win)).wrap(1)]);
    assert_eq!(frames.last().unwrap().packets, vec![ack(1, PacketResponse::Accepted)]);
    let game = listener_of(&hub, A);
    let frames = send(&mut hub, B, vec![ServerBoundPacket::JoinGame(game).wrap(2)]);
    assert_eq!(frames.last().unwrap().packets, vec![ack(2, PacketResponse::Accepted)]);
    (hub, game)
}

#[test]
fn a_new_client_is_told_its_id_first() {
    let mut hub = NetworkHandler::with_lobby_id(LOBBY, store());
    assert_eq!(hub.lobby_id(), LOBBY);
    let id = hub.add_client().unwrap();
    assert_eq!((id >> 76) & 0xf, 4);
    assert_eq!(hub.client_handler.get_client(id), Some(&Client { id, listener: LOBBY }));
    hub.handle_event(&ClientEvent::connect(id));
    let frames = hub.take_outbox();
    assert_eq!(frames.len(), 3);
    assert_eq!(frames[0], Frame { to: id, packets: vec![ClientBoundPacket::SetId(id)] });
    assert_eq!(frames[1], Frame { to: id,
        packets: vec![ClientBoundPacket::ServerList { servers: vec![] }] });
    assert!(matches!(frames[2].packets[0], ClientBoundPacket::CardPacks(_)));
    assert!(hub.take_outbox().is_empty());
}

#[test]
fn a_client_id_is_entered_once() {
    let mut hub = hub(&[A]);
    assert!(!hub.add_client_with_id(A));
    assert!(hub.add_client_with_id(B));
    assert_eq!(hub.client_handler.client_ids(), vec![A, B]);
    assert_eq!(hub.take_outbox(), vec![Frame { to: B,
        packets: vec![ClientBoundPacket::SetId(B)] }]);
}

#[test]
fn new_hub_mints_a_lobby_id() {
    let hub = NetworkHandler::new(store());
    assert_eq!((hub.lobby_id() >> 76) & 0xf, 4);
    assert!(hub.valid_listener(hub.lobby_id()));
    assert!(!hub.valid_listener(0));
}

#[test]
fn events_have_their_client_and_kind() {
    assert_eq!(ClientEvent::connect(A), ClientEvent { data: ClientEventData::Connect,
        client_id: A });
    assert_eq!(ClientEvent::disconnect(B), ClientEvent { data: ClientEventData::Disconnect,
        client_id: B });
    let packets = || vec![WrappedServerBoundPacket::Raw(ServerBoundPacket::StartGame)];
    assert_eq!(
        ClientEvent::message(packets(), C),
        ClientEvent { data: ClientEventData::Message(packets()), client_id: C }
    );
}

#[test]
fn acks_come_in_one_frame_in_arrival_order() {
    let mut hub = hub(&[A]);
    let frames = send(
        &mut hub,
        A,
        vec![
            ServerBoundPacket::StartGame.wrap(11),
            ServerBoundPacket::RequestCardPacks.wrap(12),
            ServerBoundPacket::JoinGame(5).wrap(13),
        ],
    );
    assert_eq!(frames.len(), 2);
    assert!(matches!(frames[0].packets[0], ClientBoundPacket::CardPacks(_)));
    assert_eq!(
        frames[1],
        Frame {
            to: A,
            packets: vec![
                ack(11, PacketResponse::Rejected),
                ack(12, PacketResponse::Accepted),
                ack(13, PacketResponse::RejectedWithReason("Invalid server id".to_owned())),
            ],
        }
    );
}

#[test]
fn only_wrapped_packets_are_acknowledged() {
    let mut hub = hub(&[A]);
    let frames = send(
        &mut hub,
        A,
        vec![
            WrappedServerBoundPacket::Raw(ServerBoundPacket::StartGame),
            ServerBoundPacket::LeaveGame.wrap(21),
            WrappedServerBoundPacket::Raw(ServerBoundPacket::RefreshServerList),
            ServerBoundPacket::LeaveGame.wrap(21),
        ],
    );
    assert_eq!(frames.len(), 2);
    assert_eq!(frames[0].packets, vec![ClientBoundPacket::ServerList { servers: vec![] }]);
    assert_eq!(
        frames[1].packets,
        vec![ack(21, PacketResponse::Rejected), ack(21, PacketResponse::Rejected)]
    );
    assert_eq!(send(&mut hub, A, vec![]), vec![Frame { to: A, packets: vec![] }]);
}

#[test]
fn a_frame_from_an_unknown_client_is_dropped() {
    let mut hub = hub(&[A]);
    assert!(send(&mut hub, 99, vec![ServerBoundPacket::RequestCardPacks.wrap(1)]).is_empty());
    hub.handle_messages(&vec![ClientEvent::connect(99), ClientEvent::disconnect(99)]);
    assert!(hub.take_outbox().is_empty());
    assert_eq!(hub.client_handler.client_ids(), vec![A]);
}

#[test]
fn settings_rejection_leaves_the_lobby_unchanged() {
    let mut hub = hub(&[A]);
    let frames = send(&mut hub, A, vec![ServerBoundPacket::CreateServer(settings(&[],
        10)).wrap(1)]);
    assert_eq!(
        frames,
        vec![Frame {
            to: A,
            packets: vec![ack(1,
                PacketResponse::RejectedWithReason("Packs cannot be empty".to_owned()))],
        }]
    );
    assert!(hub.lobby.games.is_empty());
    assert_eq!(listener_of(&hub, A), LOBBY);
}

#[test]
fn two_player_minimal_match() {
    let (mut hub, game) = hub_with_game(1);
    assert_eq!(hub.lobby.games[0].host_id, A);
    assert_eq!(listener_of(&hub, B), game);
    let frames = send(&mut hub, A, vec![ServerBoundPacket::StartGame.wrap(3)]);
    assert_eq!(frames.len(), 3);
    let mut czar = 0;
    let mut hands = Vec::new();
    for (frame, to) in frames[..2].iter().zip([A, B]) {
        assert_eq!(frame.to, to);
        assert_eq!(frame.packets[0], ClientBoundPacket::StartGame);
        match &frame.packets[1] {
            ClientBoundPacket::NextRound { czar: named, new_responses, .. } => {
                czar = *named;
                assert_eq!(new_responses.len(), 10);
                hands.push(new_responses.clone());
            },
            other => panic!("expected NextRound, got {:?}", other),
        }
    }
    assert_eq!(frames[2], Frame { to: A, packets: vec![ack(3, PacketResponse::Accepted)] });
    let (player, hand) = if czar == A { (B, &hands[1]) } else { (A, &hands[0]) };

    let frames = send(&mut hub, player,
        vec![ServerBoundPacket::SelectResponse(hand[0].id).wrap(4)]);
    assert_eq!(frames.len(), 5);
    for (frame, to) in frames[..2].iter().zip([A, B]) {
        assert_eq!(frame, &Frame { to,
            packets: vec![ClientBoundPacket::PlayerFinishedPicking(player)] });
    }
    for (frame, to) in frames[2..4].iter().zip([A, B]) {
        assert_eq!(frame.to, to);
        match &frame.packets[0] {
            ClientBoundPacket::DisplayResponses(submissions) => {
                assert_eq!(submissions.len(), 1);
                assert_eq!(submissions[0].player, player);
                assert_eq!(submissions[0].responses, vec![hand[0].clone()]);
            },
            other => panic!("expected DisplayResponses, got {:?}", other),
        }
    }
    assert_eq!(frames[4], Frame { to: player, packets: vec![ack(4, PacketResponse::Accepted)] });
    assert_eq!(hub.lobby.games[0].state, GameState::Playing(PlayingState::CzarSelection));

    let frames = send(&mut hub, czar, vec![ServerBoundPacket::SelectRoundWinner(player).wrap(5)]);
    assert_eq!(
        frames,
        vec![
            Frame { to: A, packets: vec![ClientBoundPacket::DisplayWinner { winner: player,
                end_game: true }] },
            Frame { to: B, packets: vec![ClientBoundPacket::DisplayWinner { winner: player,
                end_game: true }] },
            Frame { to: czar, packets: vec![ack(5, PacketResponse::Accepted)] },
        ]
    );
    assert_eq!(hub.lobby.games[0].state, GameState::End);
}

#[test]
fn packets_of_a_frame_go_to_the_listener_the_frame_arrived_at() {
    let mut hub = hub(&[A]);
    let frames = send(
        &mut hub,
        A,
        vec![
            ServerBoundPacket::CreateServer(settings(&[DEFAULT_PACK], 1)).wrap(1),
            ServerBoundPacket::SetPlayerName("Ann".to_owned()).wrap(2),
        ],
    );
    assert_eq!(
        frames.last().unwrap().packets,
        vec![ack(1, PacketResponse::Accepted), ack(2, PacketResponse::Rejected)]
    );
    let frames = send(&mut hub, A,
        vec![ServerBoundPacket::SetPlayerName("Ann".to_owned()).wrap(3)]);
    assert_eq!(frames.last().unwrap().packets, vec![ack(3, PacketResponse::Accepted)]);
    assert_eq!(hub.lobby.games[0].host_name(), "Ann");
}

#[test]
fn leaving_an_ended_game_returns_to_the_lobby() {
    let (mut hub, game) = hub_with_game(1);
    assert_eq!(
        send(&mut hub, B, vec![ServerBoundPacket::LeaveGame.wrap(9)]).last().unwrap().packets,
        vec![ack(9, PacketResponse::Rejected)]
    );
    assert_eq!(listener_of(&hub, B), game);
    send(&mut hub, A, vec![WrappedServerBoundPacket::Raw(ServerBoundPacket::StartGame)]);
    let czar = hub.lobby.games[0].players.inner[hub.lobby.games[0].czar_index].0;
    let player = if czar == A { B } else { A };
    send(
        &mut hub,
        player,
        vec![raw(ServerBoundPacket::SelectResponse(cfh::cards::CardID::new(0, 0)))],
    );
    send(&mut hub, czar,
        vec![WrappedServerBoundPacket::Raw(ServerBoundPacket::SelectRoundWinner(player))]);
    assert_eq!(hub.lobby.games[0].state, GameState::End);

    let frames = send(&mut hub, B, vec![ServerBoundPacket::LeaveGame.wrap(10)]);
    assert_eq!(listener_of(&hub, B), LOBBY);
    assert_eq!(hub.lobby.games[0].num_players(), 1);
    assert_eq!(frames.len(), 4);
    assert_eq!(frames[0], Frame { to: A, packets: vec![ClientBoundPacket::RemovePlayer { id: B,
        new_host: None }] });
    assert_eq!(frames[1].to, B);
    assert!(matches!(frames[1].packets[0], ClientBoundPacket::ServerList { .. }));
    assert!(matches!(frames[2].packets[0], ClientBoundPacket::CardPacks(_)));
    assert_eq!(frames[3], Frame { to: B, packets: vec![ack(10, PacketResponse::Accepted)] });

    // The last player leaves: the game is deserted and is dropped by the sweep.
    send(&mut hub, A, vec![ServerBoundPacket::LeaveGame.wrap(11)]);
    assert_eq!(listener_of(&hub, A), LOBBY);
    assert!(hub.lobby.games.is_empty());
    assert!(!hub.valid_listener(game));
    assert!(hub.lobby.pack_store.loaded_packs[0].holders.is_empty());
}

#[test]
fn last_player_disconnecting_gets_the_game_reaped() {
    let (mut hub, game) = hub_with_game(3);
    send(&mut hub, A, vec![WrappedServerBoundPacket::Raw(ServerBoundPacket::StartGame)]);
    hub.handle_messages(&vec![ClientEvent::disconnect(A)]);
    assert_eq!(hub.lobby.games.len(), 1);
    assert_eq!(hub.client_handler.client_ids(), vec![B]);
    assert!(hub.client_handler.get_client(A).is_none());
    hub.take_outbox();
    hub.handle_messages(&vec![ClientEvent::disconnect(B)]);
    assert!(hub.take_outbox().is_empty());
    assert!(hub.lobby.games.is_empty());
    assert!(!hub.valid_listener(game));
    assert!(hub.client_handler.client_ids().is_empty());
    // The next client is shown no game.
    assert!(hub.add_client_with_id(C));
    hub.handle_messages(&vec![ClientEvent::connect(C)]);
    assert_eq!(
        hub.take_outbox()[1],
        Frame { to: C, packets: vec![ClientBoundPacket::ServerList { servers: vec![] }] }
    );
}

#[test]
fn forward_client_rebinds_and_greets() {
    let (mut hub, game) = hub_with_game(3);
    assert!(hub.add_client_with_id(C));
    hub.take_outbox();
    assert!(!hub.forward_client(C, 5));
    assert!(!hub.forward_client(99, game));
    assert!(hub.take_outbox().is_empty());
    assert_eq!(listener_of(&hub, C), LOBBY);
    assert!(hub.forward_client(C, game));
    assert_eq!(listener_of(&hub, C), game);
    assert_eq!(hub.lobby.games[0].num_players(), 3);
    assert_eq!(hub.take_outbox().iter().map(|frame| frame.to).collect::<Vec<_>>(), vec![A, B, C]);
    assert!(hub.forward_client(C, LOBBY));
    assert_eq!(listener_of(&hub, C), LOBBY);
    assert_eq!(hub.take_outbox().len(), 2);
}

#[test]
fn pack_files_to_read_are_those_that_are_neither_loaded_nor_staged() {
    let mut hub = hub(&[A]);
    let packets = vec![
        ServerBoundPacket::CreateServer(settings(&["Animals", DEFAULT_PACK, "Nope", "Homemade"],
            1)).wrap(1),
        WrappedServerBoundPacket::Raw(ServerBoundPacket::StartGame),
        raw(ServerBoundPacket::UpdateSetting(GameSetting::AddPack("Animals".to_owned()))),
        raw(ServerBoundPacket::UpdateSetting(GameSetting::RemovePack("Homemade".to_owned()))),
    ];
    assert_eq!(
        hub.packs_to_read(&packets),
        vec![("Animals".to_owned(), true), ("Homemade".to_owned(), false), ("Animals".to_owned(),
            true)]
    );
    assert!(hub.stage_pack(pack("Animals", 2, 9)));
    assert_eq!(hub.packs_to_read(&packets), vec![("Homemade".to_owned(), false)]);
    let mut bad = pack("Homemade", 1, 1);
    bad.prompts[0].pick = 9;
    assert!(!hub.stage_pack(bad));
    assert_eq!(hub.packs_to_read(&packets), vec![("Homemade".to_owned(), false)]);
}

#[test]
fn staged_packs_are_loaded_on_demand_and_forgotten_after_the_batch() {
    let mut hub = hub(&[A, B]);
    assert!(hub.stage_pack(pack("Animals", 2, 9)));
    assert!(hub.stage_pack(pack("Homemade", 2, 9)));
    let frames = send(&mut hub, A, vec![ServerBoundPacket::CreateServer(settings(&["Animals"],
        1)).wrap(1)]);
    assert_eq!(frames.last().unwrap().packets, vec![ack(1, PacketResponse::Accepted)]);
    assert!(hub.lobby.pack_store.is_loaded("Animals"));
    assert!(hub.lobby.pack_store.staged_packs.is_empty());
    let frames = send(&mut hub, B, vec![ServerBoundPacket::CreateServer(settings(&["Homemade"],
        1)).wrap(2)]);
    assert_eq!(
        frames.last().unwrap().packets,
        vec![ack(2, PacketResponse::RejectedWithReason("Error creating new game".to_owned()))]
    );
    // The game's host adds and removes a pack.
    assert!(hub.stage_pack(pack("Homemade", 2, 9)));
    let add = ServerBoundPacket::UpdateSetting(GameSetting::AddPack("Homemade".to_owned()));
    let remove = ServerBoundPacket::UpdateSetting(GameSetting::RemovePack("Animals".to_owned()));
    let frames = send(&mut hub, A, vec![add.wrap(3), remove.wrap(4)]);
    assert_eq!(
        frames.last().unwrap().packets,
        vec![ack(3, PacketResponse::Accepted), ack(4, PacketResponse::Accepted)]
    );
    assert!(hub.lobby.pack_store.is_loaded("Homemade"));
    assert!(!hub.lobby.pack_store.is_loaded("Animals"));
}

#[test]
fn add_listener_registers_a_game() {
    let mut hub = hub(&[A]);
    let id = hub.add_listener(&settings(&[DEFAULT_PACK], 2)).unwrap();
    assert_eq!((id >> 76) & 0xf, 4);
    assert!(hub.valid_listener(id));
    assert_eq!(hub.lobby.games[0].id, id);
    assert_eq!(hub.add_listener(&settings(&[], 2)), Err(AddGameError::Settings));
    // Nobody is bound to the game and nobody plays, but it waits to start: it stays.
    hub.reap();
    assert!(hub.valid_listener(id));
    let frames = send(&mut hub, A, vec![ServerBoundPacket::JoinGame(id).wrap(1)]);
    assert_eq!(frames.last().unwrap().packets, vec![ack(1, PacketResponse::Accepted)]);
    assert_eq!(hub.lobby.games[0].host_id, A);
}

#[test]
fn shutdown_closes_every_client_once() {
    let (mut hub, _) = hub_with_game(3);
    assert!(hub.add_client_with_id(C));
    assert_eq!(hub.shutdown(), vec![A, B, C]);
    assert!(hub.stopped);
    assert!(hub.lobby.games.is_empty());
    assert!(hub.client_handler.client_ids().is_empty());
    assert!(hub.lobby.pack_store.loaded_packs[0].holders.is_empty());
    assert_eq!(hub.shutdown(), Vec::<u128>::new());
}
