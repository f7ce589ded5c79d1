use cfh::clients::{Client, ClientHandler};
use cfh::protocol::{ClientBoundPacket, Frame};

const LOBBY: u128 = 1000;

fn handler() -> ClientHandler {
    let mut handler = ClientHandler::new();
    assert!(handler.add_client_with_id(1, LOBBY));
    assert!(handler.add_client_with_id(2, LOBBY));
    handler.take_outbox();
    handler
}

#[test]
fn new_registry_is_empty() {
    let mut handler = ClientHandler::new();
    assert!(handler.client_ids().is_empty());
    assert!(handler.take_outbox().is_empty());
    assert_eq!(handler.get_client(1), None);
    assert!(!handler.is_bound(LOBBY));
}

#[test]
fn client_new_keeps_id_and_listener() {
    assert_eq!(Client::new(4, 9), Client { id: 4, listener: 9 });
}

#[test]
fn add_client_queues_the_id_for_the_client() {
    let mut handler = ClientHandler::new();
    let id = handler.add_client(LOBBY).unwrap();
    assert_eq!((id >> 76) & 0xf, 4);
    assert_eq!((id >> 62) & 0x3, 2);
    assert_eq!(handler.get_client(id), Some(&Client { id, listener: LOBBY }));
    assert_eq!(handler.client_ids(), vec![id]);
    assert_eq!(handler.take_outbox(), vec![Frame { to: id,
        packets: vec![ClientBoundPacket::SetId(id)] }]);
    assert!(!handler.add_client_with_id(id, 5));
    assert_eq!(handler.get_client(id).unwrap().listener, LOBBY);
    assert!(handler.take_outbox().is_empty());
}

#[test]
fn rebind_changes_the_listener_of_one_client() {
    let mut handler = handler();
    assert!(handler.rebind(2, 7));
    assert!(!handler.rebind(3, 7));
    assert_eq!(handler.get_client(1), Some(&Client { id: 1, listener: LOBBY }));
    assert_eq!(handler.get_client(2), Some(&Client { id: 2, listener: 7 }));
    assert!(handler.is_bound(7));
    assert!(handler.is_bound(LOBBY));
    assert!(!handler.is_bound(8));
    assert_eq!(handler.client_ids(), vec![1, 2]);
}

#[test]
fn remove_client_forgets_the_client() {
    let mut handler = handler();
    assert_eq!(handler.remove_client(1), Some(Client { id: 1, listener: LOBBY }));
    assert_eq!(handler.remove_client(1), None);
    assert_eq!(handler.get_client(1), None);
    assert_eq!(handler.client_ids(), vec![2]);
}

#[test]
fn frames_are_queued_for_connected_clients_only() {
    let mut handler = handler();
    assert!(handler.send_packet(1, ClientBoundPacket::StartGame));
    assert!(!handler.send_packet(3, ClientBoundPacket::StartGame));
    assert!(handler.send_packets(2, vec![ClientBoundPacket::CancelRound,
        ClientBoundPacket::StartGame]));
    assert!(!handler.send_packets(3, vec![]));
    assert!(handler.send_packets(1, vec![]));
    assert_eq!(
        handler.take_outbox(),
        vec![
            Frame { to: 1, packets: vec![ClientBoundPacket::StartGame] },
            Frame { to: 2, packets: vec![ClientBoundPacket::CancelRound,
                ClientBoundPacket::StartGame] },
            Frame { to: 1, packets: vec![] },
        ]
    );
    assert!(handler.take_outbox().is_empty());
}
