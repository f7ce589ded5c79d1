//! The packets that clients and the server exchange.
//!
//! Server-bound packets may arrive bare or wrapped with a packet id; a wrapped packet is
//! owed exactly one [`ClientBoundPacket::Ack`]. Every type here has a view that holds its
//! contents as mathematical values, which is what the contracts of the engine speak of.

use vstd::prelude::*;
use crate::cards::{CardID, Prompt, PromptView, Response};
use crate::ids::{mint_id, is_random_uuid, ClientId, ListenerId, PacketId};
use crate::seqs::views_of;

verus! {

/// One adjustable setting of a game.
#[derive(Debug, PartialEq, Eq)]
pub enum GameSetting {
    MaxPlayers(Option<usize>),
    MaxSelectionTime(Option<u32>),
    PointsToWin(u32),
    AddPack(String),
    RemovePack(String),
}

/// What a [`GameSetting`] holds.
pub enum GameSettingView {
    MaxPlayers(Option<usize>),
    MaxSelectionTime(Option<u32>),
    PointsToWin(u32),
    AddPack(Seq<char>),
    RemovePack(Seq<char>),
}

impl View for GameSetting {
    type V = GameSettingView;

    open spec fn view(&self) -> GameSettingView {
        match self {
            GameSetting::MaxPlayers(limit) => GameSettingView::MaxPlayers(*limit),
            GameSetting::MaxSelectionTime(limit) => GameSettingView::MaxSelectionTime(*limit),
            GameSetting::PointsToWin(points) => GameSettingView::PointsToWin(*points),
            GameSetting::AddPack(name) => GameSettingView::AddPack(name@),
            GameSetting::RemovePack(name) => GameSettingView::RemovePack(name@),
        }
    }
}

impl Clone for GameSetting {
    fn clone(&self) -> (copy: Self)
        ensures
            copy@ == self@,
    {
        match self {
            GameSetting::MaxPlayers(limit) => GameSetting::MaxPlayers(*limit),
            GameSetting::MaxSelectionTime(limit) => GameSetting::MaxSelectionTime(*limit),
            GameSetting::PointsToWin(points) => GameSetting::PointsToWin(*points),
            GameSetting::AddPack(name) => GameSetting::AddPack(name.clone()),
            GameSetting::RemovePack(name) => GameSetting::RemovePack(name.clone()),
        }
    }
}

/// The settings a game is created with.
#[derive(Debug, PartialEq, Eq)]
pub struct GameSettings {
    pub max_players: Option<usize>,
    pub max_selection_time: Option<u32>,
    pub points_to_win: u32,
    pub packs: Vec<String>,
}

/// What a [`GameSettings`] holds.
pub struct GameSettingsView {
    pub max_players: Option<usize>,
    pub max_selection_time: Option<u32>,
    pub points_to_win: u32,
    pub packs: Seq<Seq<char>>,
}

impl View for GameSettings {
    type V = GameSettingsView;

    open spec fn view(&self) -> GameSettingsView {
        GameSettingsView {
            max_players: self.max_players,
            max_selection_time: self.max_selection_time,
            points_to_win: self.points_to_win,
            packs: views_of(self.packs@),
        }
    }
}

/// The verdict on one server-bound packet.
#[derive(Debug, PartialEq, Eq)]
pub enum PacketResponse {
    Accepted,
    Rejected,
    RejectedWithReason(String),
}

/// What a [`PacketResponse`] holds.
pub enum PacketResponseView {
    Accepted,
    Rejected,
    RejectedWithReason(Seq<char>),
}

impl View for PacketResponse {
    type V = PacketResponseView;

    open spec fn view(&self) -> PacketResponseView {
        match self {
            PacketResponse::Accepted => PacketResponseView::Accepted,
            PacketResponse::Rejected => PacketResponseView::Rejected,
            PacketResponse::RejectedWithReason(reason) => PacketResponseView::RejectedWithReason(
                reason@,
            ),
        }
    }
}

impl Clone for PacketResponse {
    fn clone(&self) -> (copy: Self)
        ensures
            copy@ == self@,
    {
        match self {
            PacketResponse::Accepted => PacketResponse::Accepted,
            PacketResponse::Rejected => PacketResponse::Rejected,
            PacketResponse::RejectedWithReason(reason) => PacketResponse::RejectedWithReason(
                reason.clone(),
            ),
        }
    }
}

impl PacketResponse {
    /// A rejection that carries `reason`.
    pub fn rejected_because(reason: &str) -> (response: Self)
        ensures
            response@ == PacketResponseView::RejectedWithReason(reason@),
    {
        PacketResponse::RejectedWithReason(reason.to_owned())
    }
}

/// A response card as sent to a client: its id and its text.
#[derive(Debug, PartialEq, Eq)]
pub struct ResponseData {
    pub id: CardID,
    pub text: Response,
}

/// What a [`ResponseData`] holds.
pub struct ResponseDataView {
    pub id: CardID,
    pub text: Seq<char>,
}

impl View for ResponseData {
    type V = ResponseDataView;

    open spec fn view(&self) -> ResponseDataView {
        ResponseDataView { id: self.id, text: self.text@ }
    }
}

impl Clone for ResponseData {
    fn clone(&self) -> (copy: Self)
        ensures
            copy@ == self@,
    {
        ResponseData { id: self.id, text: self.text.clone() }
    }
}

impl ResponseData {
    pub fn new(id: CardID, text: Response) -> (data: Self)
        ensures
            data@ == (ResponseDataView { id, text: text@ }),
    {
        ResponseData { id, text }
    }
}

/// Copies a list of response cards.
pub fn clone_responses(responses: &Vec<ResponseData>) -> (copy: Vec<ResponseData>)
    ensures
        views_of(copy@) == views_of(responses@),
{
    let copy = responses.clone();
    assert(views_of(copy@) =~= views_of(responses@));
    copy
}

/// The responses one player submitted to the current prompt.
#[derive(Debug, PartialEq, Eq)]
pub struct Submission {
    pub player: ClientId,
    pub responses: Vec<ResponseData>,
}

/// What a [`Submission`] holds.
pub struct SubmissionView {
    pub player: ClientId,
    pub responses: Seq<ResponseDataView>,
}

impl View for Submission {
    type V = SubmissionView;

    open spec fn view(&self) -> SubmissionView {
        SubmissionView { player: self.player, responses: views_of(self.responses@) }
    }
}

impl Clone for Submission {
    fn clone(&self) -> (copy: Self)
        ensures
            copy@ == self@,
    {
        Submission { player: self.player, responses: clone_responses(&self.responses) }
    }
}

/// One open game as the lobby lists it.
#[derive(Debug, PartialEq, Eq)]
pub struct ServerInfo {
    pub id: ListenerId,
    pub host_name: String,
    pub num_players: usize,
    pub max_players: Option<usize>,
}

/// What a [`ServerInfo`] holds.
pub struct ServerInfoView {
    pub id: ListenerId,
    pub host_name: Seq<char>,
    pub num_players: usize,
    pub max_players: Option<usize>,
}

impl View for ServerInfo {
    type V = ServerInfoView;

    open spec fn view(&self) -> ServerInfoView {
        ServerInfoView {
            id: self.id,
            host_name: self.host_name@,
            num_players: self.num_players,
            max_players: self.max_players,
        }
    }
}

impl Clone for ServerInfo {
    fn clone(&self) -> (copy: Self)
        ensures
            copy@ == self@,
    {
        ServerInfo {
            id: self.id,
            host_name: self.host_name.clone(),
            num_players: self.num_players,
            max_players: self.max_players,
        }
    }
}

/// One pack of the catalog as the lobby lists it.
#[derive(Debug, PartialEq, Eq)]
pub struct PackInfo {
    pub name: String,
    pub num_prompts: usize,
    pub num_responses: usize,
}

/// What a [`PackInfo`] holds.
pub struct PackInfoView {
    pub name: Seq<char>,
    pub num_prompts: usize,
    pub num_responses: usize,
}

impl View for PackInfo {
    type V = PackInfoView;

    open spec fn view(&self) -> PackInfoView {
        PackInfoView {
            name: self.name@,
            num_prompts: self.num_prompts,
            num_responses: self.num_responses,
        }
    }
}

impl Clone for PackInfo {
    fn clone(&self) -> (copy: Self)
        ensures
            copy@ == self@,
    {
        PackInfo {
            name: self.name.clone(),
            num_prompts: self.num_prompts,
            num_responses: self.num_responses,
        }
    }
}

/// A packet from the server to a client.
#[derive(Debug, PartialEq, Eq)]
pub enum ClientBoundPacket {
    SetId(ClientId),
    StartGame,
    SettingUpdate(GameSetting),
    AddPlayer { id: ClientId, name: String, is_host: bool, points: u32 },
    UpdatePlayerName { id: ClientId, name: String },
    RemovePlayer { id: ClientId, new_host: Option<ClientId> },
    PlayerFinishedPicking(ClientId),
    DisplayResponses(Vec<Submission>),
    NextRound { czar: ClientId, prompt: Prompt, new_responses: Vec<ResponseData> },
    CancelRound,
    DisplayWinner { winner: ClientId, end_game: bool },
    Ack { packet_id: PacketId, response: PacketResponse },
    ServerList { servers: Vec<ServerInfo> },
    CardPacks(Vec<PackInfo>),
}

/// What a [`ClientBoundPacket`] holds.
pub enum ClientBoundView {
    SetId(ClientId),
    StartGame,
    SettingUpdate(GameSettingView),
    AddPlayer { id: ClientId, name: Seq<char>, is_host: bool, points: u32 },
    UpdatePlayerName { id: ClientId, name: Seq<char> },
    RemovePlayer { id: ClientId, new_host: Option<ClientId> },
    PlayerFinishedPicking(ClientId),
    DisplayResponses(Seq<SubmissionView>),
    NextRound { czar: ClientId, prompt: PromptView, new_responses: Seq<ResponseDataView> },
    CancelRound,
    DisplayWinner { winner: ClientId, end_game: bool },
    Ack { packet_id: PacketId, response: PacketResponseView },
    ServerList { servers: Seq<ServerInfoView> },
    CardPacks(Seq<PackInfoView>),
}

impl View for ClientBoundPacket {
    type V = ClientBoundView;

    open spec fn view(&self) -> ClientBoundView {
        match self {
            ClientBoundPacket::SetId(id) => ClientBoundView::SetId(*id),
            ClientBoundPacket::StartGame => ClientBoundView::StartGame,
            ClientBoundPacket::SettingUpdate(setting) => ClientBoundView::SettingUpdate(setting@),
            ClientBoundPacket::AddPlayer { id, name, is_host,
                points } => ClientBoundView::AddPlayer {
                id: *id,
                name: name@,
                is_host: *is_host,
                points: *points,
            },
            ClientBoundPacket::UpdatePlayerName { id, name } => ClientBoundView::UpdatePlayerName {
                id: *id,
                name: name@,
            },
            ClientBoundPacket::RemovePlayer { id, new_host } => ClientBoundView::RemovePlayer {
                id: *id,
                new_host: *new_host,
            },
            ClientBoundPacket::PlayerFinishedPicking(id) => ClientBoundView::PlayerFinishedPicking(
                *id,
            ),
            ClientBoundPacket::DisplayResponses(submissions) => ClientBoundView::DisplayResponses(
                views_of(submissions@),
            ),
            ClientBoundPacket::NextRound { czar, prompt,
                new_responses } => ClientBoundView::NextRound {
                czar: *czar,
                prompt: prompt@,
                new_responses: views_of(new_responses@),
            },
            ClientBoundPacket::CancelRound => ClientBoundView::CancelRound,
            ClientBoundPacket::DisplayWinner { winner,
                end_game } => ClientBoundView::DisplayWinner {
                winner: *winner,
                end_game: *end_game,
            },
            ClientBoundPacket::Ack { packet_id, response } => ClientBoundView::Ack {
                packet_id: *packet_id,
                response: response@,
            },
            ClientBoundPacket::ServerList { servers } => ClientBoundView::ServerList {
                servers: views_of(servers@),
            },
            ClientBoundPacket::CardPacks(packs) => ClientBoundView::CardPacks(views_of(packs@)),
        }
    }
}

impl Clone for ClientBoundPacket {
    fn clone(&self) -> (copy: Self)
        ensures
            copy@ == self@,
    {
        match self {
            ClientBoundPacket::SetId(id) => ClientBoundPacket::SetId(*id),
            ClientBoundPacket::StartGame => ClientBoundPacket::StartGame,
            ClientBoundPacket::SettingUpdate(setting) => ClientBoundPacket::SettingUpdate(
                setting.clone(),
            ),
            ClientBoundPacket::AddPlayer { id, name, is_host,
                points } => ClientBoundPacket::AddPlayer {
                id: *id,
                name: name.clone(),
                is_host: *is_host,
                points: *points,
            },
            ClientBoundPacket::UpdatePlayerName { id,
                name } => ClientBoundPacket::UpdatePlayerName {
                id: *id,
                name: name.clone(),
            },
            ClientBoundPacket::RemovePlayer { id, new_host } => ClientBoundPacket::RemovePlayer {
                id: *id,
                new_host: *new_host,
            },
            ClientBoundPacket::PlayerFinishedPicking(id) => {
                ClientBoundPacket::PlayerFinishedPicking(*id)
            },
            ClientBoundPacket::DisplayResponses(submissions) => {
                let copy = submissions.clone();
                assert(views_of(copy@) =~= views_of(submissions@));
                ClientBoundPacket::DisplayResponses(copy)
            },
            ClientBoundPacket::NextRound { czar, prompt,
                new_responses } => ClientBoundPacket::NextRound {
                czar: *czar,
                prompt: prompt.clone(),
                new_responses: clone_responses(new_responses),
            },
            ClientBoundPacket::CancelRound => ClientBoundPacket::CancelRound,
            ClientBoundPacket::DisplayWinner { winner,
                end_game } => ClientBoundPacket::DisplayWinner {
                winner: *winner,
                end_game: *end_game,
            },
            ClientBoundPacket::Ack { packet_id, response } => ClientBoundPacket::Ack {
                packet_id: *packet_id,
                response: response.clone(),
            },
            ClientBoundPacket::ServerList { servers } => {
                let copy = servers.clone();
                assert(views_of(copy@) =~= views_of(servers@));
                ClientBoundPacket::ServerList { servers: copy }
            },
            ClientBoundPacket::CardPacks(packs) => {
                let copy = packs.clone();
                assert(views_of(copy@) =~= views_of(packs@));
                ClientBoundPacket::CardPacks(copy)
            },
        }
    }
}

impl ClientBoundPacket {
    /// The packet that tells clients of a setting that was just applied.
    pub fn echo_setting_update(setting: &GameSetting) -> (packet: Self)
        ensures
            packet@ == ClientBoundView::SettingUpdate(setting@),
    {
        ClientBoundPacket::SettingUpdate(setting.clone())
    }
}

/// A packet from a client to the server.
#[derive(Debug, PartialEq, Eq)]
pub enum ServerBoundPacket {
    // Packets for a game
    SetPlayerName(String),
    StartGame,
    UpdateSetting(GameSetting),
    SelectResponse(CardID),
    SelectRoundWinner(ClientId),
    LeaveGame,
    // Packets for the lobby
    CreateServer(GameSettings),
    JoinGame(ListenerId),
    RefreshServerList,
    RequestCardPacks,
}

/// What a [`ServerBoundPacket`] holds.
pub enum ServerBoundView {
    SetPlayerName(Seq<char>),
    StartGame,
    UpdateSetting(GameSettingView),
    SelectResponse(CardID),
    SelectRoundWinner(ClientId),
    LeaveGame,
    CreateServer(GameSettingsView),
    JoinGame(ListenerId),
    RefreshServerList,
    RequestCardPacks,
}

impl View for ServerBoundPacket {
    type V = ServerBoundView;

    open spec fn view(&self) -> ServerBoundView {
        match self {
            ServerBoundPacket::SetPlayerName(name) => ServerBoundView::SetPlayerName(name@),
            ServerBoundPacket::StartGame => ServerBoundView::StartGame,
            ServerBoundPacket::UpdateSetting(setting) => ServerBoundView::UpdateSetting(setting@),
            ServerBoundPacket::SelectResponse(card) => ServerBoundView::SelectResponse(*card),
            ServerBoundPacket::SelectRoundWinner(id) => ServerBoundView::SelectRoundWinner(*id),
            ServerBoundPacket::LeaveGame => ServerBoundView::LeaveGame,
            ServerBoundPacket::CreateServer(settings) => ServerBoundView::CreateServer(settings@),
            ServerBoundPacket::JoinGame(id) => ServerBoundView::JoinGame(*id),
            ServerBoundPacket::RefreshServerList => ServerBoundView::RefreshServerList,
            ServerBoundPacket::RequestCardPacks => ServerBoundView::RequestCardPacks,
        }
    }
}

/// A server-bound packet as it arrives: bare, or wrapped with the id that its
/// acknowledgement must carry.
#[derive(Debug, PartialEq, Eq)]
pub enum WrappedServerBoundPacket {
    Raw(ServerBoundPacket),
    WithId { packet: ServerBoundPacket, packet_id: PacketId },
}

/// What a [`WrappedServerBoundPacket`] holds.
pub enum WrappedServerBoundView {
    Raw(ServerBoundView),
    WithId { packet: ServerBoundView, packet_id: PacketId },
}

impl View for WrappedServerBoundPacket {
    type V = WrappedServerBoundView;

    open spec fn view(&self) -> WrappedServerBoundView {
        match self {
            WrappedServerBoundPacket::Raw(packet) => WrappedServerBoundView::Raw(packet@),
            WrappedServerBoundPacket::WithId { packet,
                packet_id } => WrappedServerBoundView::WithId {
                packet: packet@,
                packet_id: *packet_id,
            },
        }
    }
}

impl WrappedServerBoundView {
    /// The packet inside the envelope.
    pub open spec fn packet(self) -> ServerBoundView {
        match self {
            WrappedServerBoundView::Raw(packet) => packet,
            WrappedServerBoundView::WithId { packet, .. } => packet,
        }
    }

    /// The id that the acknowledgement must carry, if one is owed.
    pub open spec fn packet_id(self) -> Option<PacketId> {
        match self {
            WrappedServerBoundView::Raw(_) => None,
            WrappedServerBoundView::WithId { packet_id, .. } => Some(packet_id),
        }
    }
}

impl WrappedServerBoundPacket {
    /// The packet inside the envelope.
    pub fn packet(&self) -> (packet: &ServerBoundPacket)
        ensures
            packet@ == self@.packet(),
    {
        match self {
            WrappedServerBoundPacket::Raw(packet) => packet,
            WrappedServerBoundPacket::WithId { packet, .. } => packet,
        }
    }

    /// The id that the acknowledgement must carry, if one is owed.
    pub fn packet_id(&self) -> (id: Option<PacketId>)
        ensures
            id == self@.packet_id(),
    {
        match self {
            WrappedServerBoundPacket::Raw(_) => None,
            WrappedServerBoundPacket::WithId { packet_id, .. } => Some(*packet_id),
        }
    }
}

impl ServerBoundPacket {
    /// Wraps the packet with the given id.
    pub fn wrap(self, packet_id: PacketId) -> (wrapped: WrappedServerBoundPacket)
        ensures
            wrapped@ == (WrappedServerBoundView::WithId { packet: self@, packet_id }),
    {
        WrappedServerBoundPacket::WithId { packet: self, packet_id }
    }

    /// Wraps the packet with a freshly minted id, and returns the id beside it.
    pub fn with_id(self) -> (wrapped: (WrappedServerBoundPacket, PacketId))
        ensures
            wrapped.0@ == (WrappedServerBoundView::WithId { packet: self@, packet_id: wrapped.1 }),
            is_random_uuid(wrapped.1),
    {
        let packet_id = mint_id();
        (self.wrap(packet_id), packet_id)
    }
}

/// One outbound frame: the packets that go to one client in one message.
#[derive(Debug, PartialEq, Eq)]
pub struct Frame {
    pub to: ClientId,
    pub packets: Vec<ClientBoundPacket>,
}

/// What a [`Frame`] holds.
pub struct FrameView {
    pub to: ClientId,
    pub packets: Seq<ClientBoundView>,
}

impl View for Frame {
    type V = FrameView;

    open spec fn view(&self) -> FrameView {
        FrameView { to: self.to, packets: views_of(self.packets@) }
    }
}

/// Queues one frame for `to`.
pub fn send_packets(out: &mut Vec<Frame>, to: ClientId, packets: Vec<ClientBoundPacket>)
    ensures
        views_of(final(out)@) == views_of(old(out)@).push(
            FrameView { to, packets: views_of(packets@) },
        ),
{
    out.push(Frame { to, packets });
    assert(views_of(out@) =~= views_of(old(out)@).push(
        FrameView { to, packets: views_of(packets@) },
    ));
}

/// Queues one frame for `to` that holds the one packet.
pub fn send_packet(out: &mut Vec<Frame>, to: ClientId, packet: ClientBoundPacket)
    ensures
        views_of(final(out)@) == views_of(old(out)@).push(FrameView { to, packets: seq![packet@] }),
{
    let mut packets: Vec<ClientBoundPacket> = Vec::new();
    packets.push(packet);
    assert(views_of(packets@) =~= seq![packet@]);
    send_packets(out, to, packets);
}

/// Whether an outbox that held `before` still holds it, at the front of `after`.
pub open spec fn only_grew(before: Seq<FrameView>, after: Seq<FrameView>) -> bool {
    before.len() <= after.len() && after.take(before.len() as int) == before
}

/// The frames that were queued on an outbox since it held `before`.
pub open spec fn frames_since(before: Seq<FrameView>, after: Seq<FrameView>) -> Seq<FrameView> {
    after.skip(before.len() as int)
}

/// An outbox on which `frames` were queued has only grown, by those frames.
pub proof fn lemma_queued(before: Seq<FrameView>, frames: Seq<FrameView>)
    ensures
        only_grew(before, before + frames),
        frames_since(before, before + frames) == frames,
{
    assert((before + frames).take(before.len() as int) =~= before);
    assert((before + frames).skip(before.len() as int) =~= frames);
}

/// An outbox that has only grown holds what it held, then what was queued since.
pub proof fn lemma_grew(before: Seq<FrameView>, after: Seq<FrameView>)
    requires
        only_grew(before, after),
    ensures
        after == before + frames_since(before, after),
{
    assert(after =~= after.take(before.len() as int) + after.skip(before.len() as int));
}

/// Growth composes: what was queued over two steps is what was queued in the first, then
/// what was queued in the second.
pub proof fn lemma_grew_twice(before: Seq<FrameView>, mid: Seq<FrameView>, after: Seq<FrameView>)
    requires
        only_grew(before, mid),
        only_grew(mid, after),
    ensures
        only_grew(before, after),
        frames_since(before, after) == frames_since(before, mid) + frames_since(mid, after),
{
    lemma_grew(before, mid);
    lemma_grew(mid, after);
    assert(after.take(before.len() as int) =~= before);
    assert(frames_since(before, after) =~= frames_since(before, mid) + frames_since(mid, after));
}

} // verus!
