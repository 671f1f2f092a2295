//! The messages between nodes, and between a client and its node.

use crate::types::{KVPair, NodeId};
use vstd::prelude::*;

verus! {

/// Handshake sent by a peer node on connection.
#[derive(Clone, Debug)]
pub struct ReadyPeerMessage(pub NodeId);

/// A client's request as its node handles it.
#[derive(Debug)]
pub enum LocalMessage<K, V> where V: Clone, K: Clone {
    Get { key: K },
    Put { pair: KVPair<K, V> },
    TriPut { pairs: [KVPair<K, V>; 3] },
    /// The client has finished.
    Done,
}

#[derive(Clone, Debug)]
pub enum PeerMessage<K, V> where V: Clone, K: Clone {
    // === Quorum Read Protocol ===
    /// Coordinator asks a replica to read a key
    QuorumGet { key: K, req_id: u64 },
    /// Replica responds with its local value + version
    QuorumGetResponse { val: Option<V>, version: u64, req_id: u64 },
    // === Paxos-Commit Write Protocol ===
    /// Coordinator asks a replica to prepare (acquire stripe locks)
    Prepare { pairs: Vec<KVPair<K, V>>, tx_id: u64, version: u64 },
    /// RM sends vote to ALL nodes (phase 2a)
    Vote { tx_id: u64, rm_id: NodeId, vote: bool },
    /// Acceptor confirms vote to ALL nodes (phase 2b)
    Accepted { tx_id: u64, rm_id: NodeId, vote: bool },
    // === Crash Detection ===
    Ping,
    Pong,
    /// This node has finished its tests
    Done,
}

/// Handshake sent by a client to identify itself (distinct from ReadyPeerMessage).
#[derive(Clone, Debug)]
pub struct ClientHello {
    pub client_name: String,
}

/// Request from client to node.
#[derive(Clone, Debug)]
pub enum ClientMessage<K, V> where K: Clone, V: Clone {
    Get { key: K, req_id: u64 },
    Put { pair: KVPair<K, V>, req_id: u64 },
    TriPut { pairs: [KVPair<K, V>; 3], req_id: u64 },
    Done,
}

/// Response from node back to client.
#[derive(Clone, Debug)]
pub enum ClientResponse<V> where V: Clone {
    GetResult { val: Option<V>, req_id: u64 },
    WriteResult { success: bool, req_id: u64 },
}

/// First message on any inbound TCP connection.
/// The listener deserializes this to decide peer vs client handling.
#[derive(Clone, Debug)]
pub enum FirstMessage {
    Peer(ReadyPeerMessage),
    Client(ClientHello),
}

/// What a peer message says.
pub enum PeerView<V> where V: Clone {
    QuorumGet { key: u64, req_id: u64 },
    QuorumGetResponse { val: Option<V>, version: u64, req_id: u64 },
    Prepare { pairs: Seq<KVPair<u64, V>>, tx_id: u64, version: u64 },
    Vote { tx_id: u64, rm: (Seq<char>, usize), vote: bool },
    Accepted { tx_id: u64, rm: (Seq<char>, usize), vote: bool },
    Ping,
    Pong,
    Done,
}

impl<V: Clone> View for PeerMessage<u64, V> {
    type V = PeerView<V>;

    open spec fn view(&self) -> PeerView<V> {
        match *self {
            PeerMessage::QuorumGet { key, req_id } => PeerView::QuorumGet { key, req_id },
            PeerMessage::QuorumGetResponse { val, version, req_id } => PeerView::QuorumGetResponse {
                val,
                version,
                req_id,
            },
            PeerMessage::Prepare { pairs, tx_id, version } => PeerView::Prepare {
                pairs: pairs@,
                tx_id,
                version,
            },
            PeerMessage::Vote { tx_id, rm_id, vote } => PeerView::Vote { tx_id, rm: rm_id@, vote },
            PeerMessage::Accepted { tx_id, rm_id, vote } => PeerView::Accepted {
                tx_id,
                rm: rm_id@,
                vote,
            },
            PeerMessage::Ping => PeerView::Ping,
            PeerMessage::Pong => PeerView::Pong,
            PeerMessage::Done => PeerView::Done,
        }
    }
}

/// A message for the peer at a rank.
pub struct Envelope<V> where V: Clone {
    pub to: usize,
    pub msg: PeerMessage<u64, V>,
}

/// What a list of envelopes holds: for each its receiver and its message.
pub open spec fn outbox<V: Clone>(envelopes: Seq<Envelope<V>>) -> Seq<(usize, PeerView<V>)> {
    envelopes.map_values(|e: Envelope<V>| (e.to, e.msg@))
}

/// The same message for each of `targets`.
pub open spec fn addressed<V: Clone>(targets: Seq<usize>, msg: PeerView<V>) -> Seq<
    (usize, PeerView<V>),
> {
    Seq::new(targets.len(), |i: int| (targets[i], msg))
}

/// For each of `targets` an RM's vote, and the RM's own confirmation of it.
pub open spec fn ballots<V: Clone>(
    targets: Seq<usize>,
    tx_id: u64,
    rm: (Seq<char>, usize),
    vote: bool,
) -> Seq<(usize, PeerView<V>)> {
    Seq::new(
        2 * targets.len(),
        |i: int|
            (
                targets[i / 2],
                if i % 2 == 0 {
                    PeerView::Vote { tx_id, rm, vote }
                } else {
                    PeerView::Accepted { tx_id, rm, vote }
                },
            ),
    )
}

/// What a node handles of a client's message, and the number to answer under.
pub open spec fn handled<K: Clone, V: Clone>(msg: ClientMessage<K, V>) -> (
    LocalMessage<K, V>,
    Option<u64>,
) {
    match msg {
        ClientMessage::Get { key, req_id } => (LocalMessage::Get { key }, Some(req_id)),
        ClientMessage::Put { pair, req_id } => (LocalMessage::Put { pair }, Some(req_id)),
        ClientMessage::TriPut { pairs, req_id } => (LocalMessage::TriPut { pairs }, Some(req_id)),
        ClientMessage::Done => (LocalMessage::Done, None),
    }
}

/// The local request that a client's message makes, and the request number
/// to answer it under.
pub fn local_request<K: Clone, V: Clone>(msg: ClientMessage<K, V>) -> (request: (
    LocalMessage<K, V>,
    Option<u64>,
))
    ensures
        match msg {
            ClientMessage::Get { key, req_id } => request == (
                LocalMessage::<K, V>::Get { key },
                Some(req_id),
            ),
            ClientMessage::Put { pair, req_id } => request == (
                LocalMessage::<K, V>::Put { pair },
                Some(req_id),
            ),
            ClientMessage::TriPut { pairs, req_id } => request == (
                LocalMessage::<K, V>::TriPut { pairs },
                Some(req_id),
            ),
            ClientMessage::Done => request == (LocalMessage::<K, V>::Done, None::<u64>),
        },
        request == handled(msg),
{
    match msg {
        ClientMessage::Get { key, req_id } => (LocalMessage::Get { key }, Some(req_id)),
        ClientMessage::Put { pair, req_id } => (LocalMessage::Put { pair }, Some(req_id)),
        ClientMessage::TriPut { pairs, req_id } => (LocalMessage::TriPut { pairs }, Some(req_id)),
        ClientMessage::Done => (LocalMessage::Done, None),
    }
}

/// The answer to a Get whose read ended with `reply`, or was dropped.
pub open spec fn get_answer<V: Clone>(reply: Option<Option<V>>, req_id: u64) -> ClientResponse<V> {
    ClientResponse::GetResult {
        val: match reply {
            Some(val) => val,
            None => None,
        },
        req_id,
    }
}

/// The answer to a write that ended with `reply`, or was dropped.
pub open spec fn write_answer<V: Clone>(reply: Option<bool>, req_id: u64) -> ClientResponse<V> {
    ClientResponse::WriteResult { success: reply == Some(true), req_id }
}

/// The answer to a Get: the value read, or none if the read was dropped.
pub fn get_response<V: Clone>(reply: Option<Option<V>>, req_id: u64) -> (response: ClientResponse<V>)
    ensures
        response == (ClientResponse::GetResult {
            val: match reply {
                Some(val) => val,
                None => None,
            },
            req_id,
        }),
        response == get_answer(reply, req_id),
{
    let val = match reply {
        Some(val) => val,
        None => None,
    };
    ClientResponse::GetResult { val, req_id }
}

/// The answer to a write: its outcome, or failure if the write was dropped.
pub fn write_response<V: Clone>(reply: Option<bool>, req_id: u64) -> (response: ClientResponse<V>)
    ensures
        response == (ClientResponse::<V>::WriteResult { success: reply == Some(true), req_id }),
        response == write_answer::<V>(reply, req_id),
{
    let success = match reply {
        Some(committed) => committed,
        None => false,
    };
    ClientResponse::WriteResult { success, req_id }
}

/// The answer that a request is owed which was dropped: no value for a Get,
/// failure for a write, and none for Done.
pub fn dropped_response<K: Clone, V: Clone>(msg: &LocalMessage<K, V>, req_id: u64) -> (response:
    Option<ClientResponse<V>>)
    ensures
        response == match *msg {
            LocalMessage::Get { .. } => Some(
                ClientResponse::<V>::GetResult { val: None, req_id },
            ),
            LocalMessage::Put { .. } | LocalMessage::TriPut { .. } => Some(
                ClientResponse::<V>::WriteResult { success: false, req_id },
            ),
            LocalMessage::Done => None,
        },
        *msg is Get ==> response == Some(get_answer::<V>(None, req_id)),
        *msg is Put || *msg is TriPut ==> response == Some(write_answer::<V>(None, req_id)),
        *msg is Done ==> response is None,
{
    match msg {
        LocalMessage::Get { .. } => Some(get_response(None, req_id)),
        LocalMessage::Put { .. } | LocalMessage::TriPut { .. } => Some(
            write_response(None, req_id),
        ),
        LocalMessage::Done => None,
    }
}

impl<V: Clone> ClientResponse<V> {
    /// The number of the request that this response answers.
    pub open spec fn request(self) -> u64 {
        match self {
            ClientResponse::GetResult { req_id, .. } => req_id,
            ClientResponse::WriteResult { req_id, .. } => req_id,
        }
    }

    /// The number of the request that this response answers.
    pub fn req_id(&self) -> (req_id: u64)
        ensures
            req_id == self.request(),
    {
        match self {
            ClientResponse::GetResult { req_id, .. } => *req_id,
            ClientResponse::WriteResult { req_id, .. } => *req_id,
        }
    }
}

/// What a message says is what it was made of.
pub proof fn law_messages_say_what_they_hold<V: Clone>(
    key: u64,
    req_id: u64,
    val: Option<V>,
    version: u64,
    pairs: Vec<KVPair<u64, V>>,
    tx_id: u64,
    rm_id: NodeId,
    vote: bool,
)
    ensures
        (PeerMessage::<u64, V>::QuorumGet { key, req_id })@ == (PeerView::<V>::QuorumGet {
            key,
            req_id,
        }),
        (PeerMessage::<u64, V>::QuorumGetResponse { val, version, req_id })@ == (PeerView::<
            V,
        >::QuorumGetResponse { val, version, req_id }),
        (PeerMessage::<u64, V>::Prepare { pairs, tx_id, version })@ == (PeerView::<V>::Prepare {
            pairs: pairs@,
            tx_id,
            version,
        }),
        (PeerMessage::<u64, V>::Vote { tx_id, rm_id, vote })@ == (PeerView::<V>::Vote {
            tx_id,
            rm: rm_id@,
            vote,
        }),
        (PeerMessage::<u64, V>::Accepted { tx_id, rm_id, vote })@ == (PeerView::<V>::Accepted {
            tx_id,
            rm: rm_id@,
            vote,
        }),
        (PeerMessage::<u64, V>::Ping)@ == PeerView::<V>::Ping,
        (PeerMessage::<u64, V>::Pong)@ == PeerView::<V>::Pong,
        (PeerMessage::<u64, V>::Done)@ == PeerView::<V>::Done,
{
}

/// A list of envelopes holds for each its receiver and what its message says; a
/// message addressed to some nodes goes once to each; and of an RM's ballots
/// each node gets its vote and, next, its own confirmation of it.
pub proof fn law_what_is_sent<V: Clone>(
    envelopes: Seq<Envelope<V>>,
    targets: Seq<usize>,
    msg: PeerView<V>,
    tx_id: u64,
    rm: (Seq<char>, usize),
    vote: bool,
    i: int,
)
    ensures
        outbox(envelopes).len() == envelopes.len(),
        0 <= i < envelopes.len() ==> outbox(envelopes)[i] == (envelopes[i].to, envelopes[i].msg@),
        addressed(targets, msg).len() == targets.len(),
        0 <= i < targets.len() ==> addressed(targets, msg)[i] == (targets[i], msg),
        ballots::<V>(targets, tx_id, rm, vote).len() == 2 * targets.len(),
        0 <= i < targets.len() ==> ballots::<V>(targets, tx_id, rm, vote)[2 * i] == (
            targets[i],
            PeerView::<V>::Vote { tx_id, rm, vote },
        ),
        0 <= i < targets.len() ==> ballots::<V>(targets, tx_id, rm, vote)[2 * i + 1] == (
            targets[i],
            PeerView::<V>::Accepted { tx_id, rm, vote },
        ),
{
}

/// A response answers the request whose number it carries.
pub proof fn law_responses_name_their_request<V: Clone>(
    val: Option<V>,
    success: bool,
    req_id: u64,
)
    ensures
        (ClientResponse::<V>::GetResult { val, req_id }).request() == req_id,
        (ClientResponse::<V>::WriteResult { success, req_id }).request() == req_id,
{
}

/// Answers case by case: a Get is answered with the value read, and with none
/// where the read found none or was dropped; a write is answered with success
/// exactly where it committed; and both under the number of their request.
pub proof fn law_answers_case_by_case<V: Clone>(
    val: V,
    read: Option<Option<V>>,
    written: Option<bool>,
    req_id: u64,
)
    ensures
        get_answer(Some(Some(val)), req_id) == (ClientResponse::GetResult {
            val: Some(val),
            req_id,
        }),
        get_answer(Some(None::<V>), req_id) == (ClientResponse::<V>::GetResult {
            val: None,
            req_id,
        }),
        get_answer(None::<Option<V>>, req_id) == (ClientResponse::<V>::GetResult {
            val: None,
            req_id,
        }),
        write_answer::<V>(Some(true), req_id) == (ClientResponse::<V>::WriteResult {
            success: true,
            req_id,
        }),
        write_answer::<V>(Some(false), req_id) == (ClientResponse::<V>::WriteResult {
            success: false,
            req_id,
        }),
        write_answer::<V>(None, req_id) == (ClientResponse::<V>::WriteResult {
            success: false,
            req_id,
        }),
        get_answer(read, req_id).request() == req_id,
        write_answer::<V>(written, req_id).request() == req_id,
{
}

} // verus!
