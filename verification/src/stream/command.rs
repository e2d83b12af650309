//! Commands that travel in control messages: starting and stopping streams, and the questions
//! and answers of the distributed hash table.

use crate::codec;
use crate::dht::id;
use crate::dht::{ContentKey, NodeId};
use crate::error;
use crate::error::Error;
use crate::stream::info;
use crate::stream::info::ObjectTransmissionInformation;
use vstd::prelude::*;
use vstd::slice::slice_subrange;

verus! {

pub const CMD_STREAM_START: u8 = 1;

pub const CMD_STOP_STREAM: u8 = 2;

pub const CMD_DHT_PING: u8 = 3;

pub const CMD_DHT_PONG: u8 = 4;

pub const CMD_DHT_FIND_NODE: u8 = 5;

pub const CMD_DHT_NODES_FOUND: u8 = 6;

pub const CMD_DHT_STORE_PROVIDER: u8 = 7;

pub const CMD_DHT_FIND_VALUE: u8 = 8;

pub const CMD_DHT_VALUE_FOUND: u8 = 9;

/// The length of a command that carries one node.
pub const CMD_DHT_NODE_ID_LEN: usize = 1 + 32;

/// The length of a command that carries a key and a node.
pub const CMD_DHT_STORE_PROVIDER_LEN: usize = 1 + 32 + 32;

/// The length of a command that carries a key.
pub const CMD_DHT_FIND_VALUE_LEN: usize = 1 + 32;

/// The length of a node identifier on the wire.
pub const DHT_NODE_ID_BYTES: usize = 32;

/// The length of a content key on the wire.
pub const DHT_CONTENT_KEY_BYTES: usize = 32;

/// The most nodes that one list carries.
pub const MAX_LISTED_NODES: usize = 255;

/// A command.
#[derive(Debug, Clone)]
pub enum StreamCommand {
    StreamStart(ObjectTransmissionInformation),
    StopStream,
    Ping { sender_id: NodeId },
    Pong { sender_id: NodeId },
    FindNode { target_id: NodeId },
    NodesFound { nodes: Vec<NodeId> },
    StoreProvider { key: ContentKey, provider_id: NodeId },
    FindValue { key: ContentKey },
    ValueFound { key: ContentKey, providers: Vec<NodeId> },
}

/// A command as a mathematical value: nodes and keys are their bytes.
pub enum StreamCommandView {
    StreamStart(ObjectTransmissionInformation),
    StopStream,
    Ping { sender_id: Seq<u8> },
    Pong { sender_id: Seq<u8> },
    FindNode { target_id: Seq<u8> },
    NodesFound { nodes: Seq<Seq<u8>> },
    StoreProvider { key: Seq<u8>, provider_id: Seq<u8> },
    FindValue { key: Seq<u8> },
    ValueFound { key: Seq<u8>, providers: Seq<Seq<u8>> },
}

/// The bytes of each node.
pub open spec fn node_views(nodes: Seq<NodeId>) -> Seq<Seq<u8>> {
    nodes.map_values(|node: NodeId| node@)
}

impl View for StreamCommand {
    type V = StreamCommandView;

    open spec fn view(&self) -> StreamCommandView {
        match *self {
            StreamCommand::StreamStart(config) => StreamCommandView::StreamStart(config),
            StreamCommand::StopStream => StreamCommandView::StopStream,
            StreamCommand::Ping { sender_id } => StreamCommandView::Ping { sender_id: sender_id@ },
            StreamCommand::Pong { sender_id } => StreamCommandView::Pong { sender_id: sender_id@ },
            StreamCommand::FindNode { target_id } => StreamCommandView::FindNode {
                target_id: target_id@,
            },
            StreamCommand::NodesFound { nodes } => StreamCommandView::NodesFound {
                nodes: node_views(nodes@),
            },
            StreamCommand::StoreProvider { key, provider_id } => StreamCommandView::StoreProvider {
                key: key@,
                provider_id: provider_id@,
            },
            StreamCommand::FindValue { key } => StreamCommandView::FindValue { key: key@ },
            StreamCommand::ValueFound { key, providers } => StreamCommandView::ValueFound {
                key: key@,
                providers: node_views(providers@),
            },
        }
    }
}

/// The bytes of the nodes, one after the other.
pub open spec fn joined(nodes: Seq<Seq<u8>>) -> Seq<u8>
    decreases nodes.len(),
{
    if nodes.len() == 0 {
        Seq::empty()
    } else {
        joined(nodes.drop_last()) + nodes.last()
    }
}

/// The nodes of a list that travel: no more than one byte can count.
pub open spec fn listed(nodes: Seq<Seq<u8>>) -> Seq<Seq<u8>> {
    if nodes.len() <= MAX_LISTED_NODES {
        nodes
    } else {
        nodes.take(MAX_LISTED_NODES as int)
    }
}

/// A list of nodes on the wire: how many there are, then each of them.
pub open spec fn encoded_nodes(nodes: Seq<Seq<u8>>) -> Seq<u8> {
    seq![listed(nodes).len() as u8] + joined(listed(nodes))
}

/// What some bytes mean as a list of nodes, or the first thing wrong with them.
pub open spec fn decoded_nodes(input: Seq<u8>) -> Result<Seq<Seq<u8>>, Error> {
    if input.len() == 0 {
        Err(Error::MissingNodeCount)
    } else if input.len() != 1 + input[0] * DHT_NODE_ID_BYTES {
        Err(
            Error::InvalidNodesLength {
                len: input.len() as usize,
                expected: (1 + input[0] * DHT_NODE_ID_BYTES) as usize,
            },
        )
    } else {
        Ok(
            Seq::new(
                input[0] as nat,
                |i: int| input.subrange(1 + 32 * i, 33 + 32 * i),
            ),
        )
    }
}

/// Every node has the length of an identifier.
pub open spec fn all_ids(nodes: Seq<Seq<u8>>) -> bool {
    forall|i: int| 0 <= i < nodes.len() ==> (#[trigger] nodes[i]).len() == DHT_NODE_ID_BYTES
}

impl StreamCommandView {
    /// Nodes and keys have their fixed length, and the length of an object fits 40 bits.
    pub open spec fn wf(self) -> bool {
        match self {
            StreamCommandView::StreamStart(config) => config.transfer_length < 0x100_0000_0000,
            StreamCommandView::StopStream => true,
            StreamCommandView::Ping { sender_id } => sender_id.len() == 32,
            StreamCommandView::Pong { sender_id } => sender_id.len() == 32,
            StreamCommandView::FindNode { target_id } => target_id.len() == 32,
            StreamCommandView::NodesFound { nodes } => all_ids(nodes),
            StreamCommandView::StoreProvider { key, provider_id } => key.len() == 32
                && provider_id.len() == 32,
            StreamCommandView::FindValue { key } => key.len() == 32,
            StreamCommandView::ValueFound { key, providers } => key.len() == 32 && all_ids(
                providers,
            ),
        }
    }

    /// The command with its lists cut to what travels.
    pub open spec fn cut(self) -> StreamCommandView {
        match self {
            StreamCommandView::NodesFound { nodes } => StreamCommandView::NodesFound {
                nodes: listed(nodes),
            },
            StreamCommandView::ValueFound { key, providers } => StreamCommandView::ValueFound {
                key,
                providers: listed(providers),
            },
            _ => self,
        }
    }

    /// The command on the wire: the byte that names it, then what it carries.
    pub open spec fn encoded(self) -> Seq<u8> {
        match self {
            StreamCommandView::StreamStart(config) => seq![CMD_STREAM_START] + config.encoded(),
            StreamCommandView::StopStream => seq![CMD_STOP_STREAM],
            StreamCommandView::Ping { sender_id } => seq![CMD_DHT_PING] + sender_id,
            StreamCommandView::Pong { sender_id } => seq![CMD_DHT_PONG] + sender_id,
            StreamCommandView::FindNode { target_id } => seq![CMD_DHT_FIND_NODE] + target_id,
            StreamCommandView::NodesFound { nodes } => seq![CMD_DHT_NODES_FOUND] + encoded_nodes(
                nodes,
            ),
            StreamCommandView::StoreProvider { key, provider_id } => seq![CMD_DHT_STORE_PROVIDER]
                + key + provider_id,
            StreamCommandView::FindValue { key } => seq![CMD_DHT_FIND_VALUE] + key,
            StreamCommandView::ValueFound { key, providers } => seq![CMD_DHT_VALUE_FOUND] + key
                + encoded_nodes(providers),
        }
    }

    /// What some bytes mean as a command, or the first thing wrong with them.
    pub open spec fn decoded(input: Seq<u8>) -> Result<StreamCommandView, Error> {
        let len = input.len() as usize;
        if input.len() == 0 {
            Err(Error::EmptyCommand)
        } else if input[0] == CMD_STREAM_START {
            if input.len() != 1 + info::OTI_LEN {
                Err(Error::InvalidStreamStartLength { len })
            } else {
                Ok(
                    StreamCommandView::StreamStart(
                        ObjectTransmissionInformation::decoded(input.subrange(1, 13)),
                    ),
                )
            }
        } else if input[0] == CMD_STOP_STREAM {
            if input.len() != 1 {
                Err(Error::InvalidStopStreamLength { len })
            } else {
                Ok(StreamCommandView::StopStream)
            }
        } else if input[0] == CMD_DHT_PING {
            if input.len() != CMD_DHT_NODE_ID_LEN {
                Err(Error::InvalidPingLength { len })
            } else {
                Ok(StreamCommandView::Ping { sender_id: input.subrange(1, 33) })
            }
        } else if input[0] == CMD_DHT_PONG {
            if input.len() != CMD_DHT_NODE_ID_LEN {
                Err(Error::InvalidPongLength { len })
            } else {
                Ok(StreamCommandView::Pong { sender_id: input.subrange(1, 33) })
            }
        } else if input[0] == CMD_DHT_FIND_NODE {
            if input.len() != CMD_DHT_NODE_ID_LEN {
                Err(Error::InvalidFindNodeLength { len })
            } else {
                Ok(StreamCommandView::FindNode { target_id: input.subrange(1, 33) })
            }
        } else if input[0] == CMD_DHT_NODES_FOUND {
            match decoded_nodes(input.subrange(1, input.len() as int)) {
                Ok(nodes) => Ok(StreamCommandView::NodesFound { nodes }),
                Err(e) => Err(e),
            }
        } else if input[0] == CMD_DHT_STORE_PROVIDER {
            if input.len() != CMD_DHT_STORE_PROVIDER_LEN {
                Err(Error::InvalidStoreProviderLength { len })
            } else {
                Ok(
                    StreamCommandView::StoreProvider {
                        key: input.subrange(1, 33),
                        provider_id: input.subrange(33, 65),
                    },
                )
            }
        } else if input[0] == CMD_DHT_FIND_VALUE {
            if input.len() != CMD_DHT_FIND_VALUE_LEN {
                Err(Error::InvalidFindValueLength { len })
            } else {
                Ok(StreamCommandView::FindValue { key: input.subrange(1, 33) })
            }
        } else if input[0] == CMD_DHT_VALUE_FOUND {
            if input.len() < 2 + DHT_CONTENT_KEY_BYTES {
                Err(Error::InvalidValueFoundLength { len })
            } else {
                match decoded_nodes(input.subrange(33, input.len() as int)) {
                    Ok(providers) => Ok(
                        StreamCommandView::ValueFound { key: input.subrange(1, 33), providers },
                    ),
                    Err(e) => Err(e),
                }
            }
        } else {
            Err(Error::UnknownCommand { value: input[0] })
        }
    }
}

/// The bytes of a list of nodes. Only the first 255 travel.
fn serialize_nodes(nodes: &[NodeId]) -> (out: Vec<u8>)
    ensures
        out@ == encoded_nodes(node_views(nodes@)),
{
    let len: usize = nodes.len();
    let count: usize = if len <= MAX_LISTED_NODES {
        len
    } else {
        MAX_LISTED_NODES
    };
    let ghost views = node_views(nodes@);
    assert(listed(views) =~= views.take(count as int));
    let mut out: Vec<u8> = Vec::new();
    out.push(count as u8);
    let mut i: usize = 0;
    assert(out@ =~= seq![count as u8] + joined(views.take(0)));
    while i < count
        invariant
            i <= count <= len,
            len == nodes@.len(),
            views == node_views(nodes@),
            out@ == seq![count as u8] + joined(views.take(i as int)),
        decreases count - i,
    {
        codec::push_bytes(&mut out, nodes[i].as_bytes());
        i = i + 1;
        proof {
            assert(views.take(i as int).drop_last() =~= views.take(i - 1));
            assert(out@ =~= seq![count as u8] + joined(views.take(i as int)));
        }
    }
    out
}

/// The list of nodes that `payload` holds.
fn deserialize_nodes(payload: &[u8]) -> (r: Result<Vec<NodeId>, Error>)
    ensures
        match r {
            Ok(nodes) => decoded_nodes(payload@) == Ok::<Seq<Seq<u8>>, Error>(node_views(nodes@)),
            Err(e) => decoded_nodes(payload@) == Err::<Seq<Seq<u8>>, Error>(e),
        },
{
    let len: usize = payload.len();
    if len == 0 {
        return Err(Error::MissingNodeCount);
    }
    let count: usize = payload[0] as usize;
    let expected: usize = 1 + count * DHT_NODE_ID_BYTES;
    if len != expected {
        return Err(Error::InvalidNodesLength { len, expected });
    }
    let mut nodes: Vec<NodeId> = Vec::new();
    let mut i: usize = 0;
    while i < count
        invariant
            i <= count <= 255,
            len == payload@.len(),
            len == 1 + count * 32,
            nodes@.len() == i,
            forall|j: int|
                0 <= j < i ==> (#[trigger] nodes@[j])@ == payload@.subrange(
                    1 + 32 * j,
                    33 + 32 * j,
                ),
        decreases count - i,
    {
        nodes.push(NodeId::from_bytes(codec::copy_32(payload, 1 + 32 * i)));
        i = i + 1;
    }
    assert(node_views(nodes@) =~= decoded_nodes(payload@)->Ok_0);
    Ok(nodes)
}

/// The node whose bytes start at the second byte of `payload`.
fn node_at_1(payload: &[u8]) -> (node: NodeId)
    requires
        payload@.len() >= 33,
    ensures
        node@ == payload@.subrange(1, 33),
{
    NodeId::from_bytes(codec::copy_32(payload, 1))
}

/// The key whose bytes start at the second byte of `payload`.
fn key_at_1(payload: &[u8]) -> (key: ContentKey)
    requires
        payload@.len() >= 33,
    ensures
        key@ == payload@.subrange(1, 33),
{
    ContentKey::from_bytes(codec::copy_32(payload, 1))
}

impl StreamCommand {
    /// The bytes of the command. Of a list only the first 255 nodes travel.
    pub fn encode(&self) -> (out: Vec<u8>)
        ensures
            out@ == self@.encoded(),
    {
        let mut out: Vec<u8> = Vec::new();
        match self {
            StreamCommand::StreamStart(config) => {
                out.push(CMD_STREAM_START);
                config.push_to(&mut out);
            },
            StreamCommand::StopStream => {
                out.push(CMD_STOP_STREAM);
            },
            StreamCommand::Ping { sender_id } => {
                out.push(CMD_DHT_PING);
                codec::push_bytes(&mut out, sender_id.as_bytes());
            },
            StreamCommand::Pong { sender_id } => {
                out.push(CMD_DHT_PONG);
                codec::push_bytes(&mut out, sender_id.as_bytes());
            },
            StreamCommand::FindNode { target_id } => {
                out.push(CMD_DHT_FIND_NODE);
                codec::push_bytes(&mut out, target_id.as_bytes());
            },
            StreamCommand::NodesFound { nodes } => {
                out.push(CMD_DHT_NODES_FOUND);
                let list = serialize_nodes(nodes.as_slice());
                codec::push_bytes(&mut out, list.as_slice());
            },
            StreamCommand::StoreProvider { key, provider_id } => {
                out.push(CMD_DHT_STORE_PROVIDER);
                codec::push_bytes(&mut out, key.as_bytes());
                codec::push_bytes(&mut out, provider_id.as_bytes());
            },
            StreamCommand::FindValue { key } => {
                out.push(CMD_DHT_FIND_VALUE);
                codec::push_bytes(&mut out, key.as_bytes());
            },
            StreamCommand::ValueFound { key, providers } => {
                out.push(CMD_DHT_VALUE_FOUND);
                codec::push_bytes(&mut out, key.as_bytes());
                let list = serialize_nodes(providers.as_slice());
                codec::push_bytes(&mut out, list.as_slice());
            },
        }
        assert(out@ =~= self@.encoded());
        out
    }

    /// The command that `payload` holds.
    pub fn decode(payload: &[u8]) -> (r: Result<Self, Error>)
        ensures
            error::viewed(r) == StreamCommandView::decoded(payload@),
    {
        let len: usize = payload.len();
        if len == 0 {
            return Err(Error::EmptyCommand);
        }
        match payload[0] {
            CMD_STREAM_START => {
                if len != 1 + info::OTI_LEN {
                    return Err(Error::InvalidStreamStartLength { len });
                }
                Ok(StreamCommand::StreamStart(ObjectTransmissionInformation::read_at(payload, 1)))
            },
            CMD_STOP_STREAM => {
                if len != 1 {
                    return Err(Error::InvalidStopStreamLength { len });
                }
                Ok(StreamCommand::StopStream)
            },
            CMD_DHT_PING => {
                if len != CMD_DHT_NODE_ID_LEN {
                    return Err(Error::InvalidPingLength { len });
                }
                Ok(StreamCommand::Ping { sender_id: node_at_1(payload) })
            },
            CMD_DHT_PONG => {
                if len != CMD_DHT_NODE_ID_LEN {
                    return Err(Error::InvalidPongLength { len });
                }
                Ok(StreamCommand::Pong { sender_id: node_at_1(payload) })
            },
            CMD_DHT_FIND_NODE => {
                if len != CMD_DHT_NODE_ID_LEN {
                    return Err(Error::InvalidFindNodeLength { len });
                }
                Ok(StreamCommand::FindNode { target_id: node_at_1(payload) })
            },
            CMD_DHT_NODES_FOUND => match deserialize_nodes(slice_subrange(payload, 1, len)) {
                Ok(nodes) => Ok(StreamCommand::NodesFound { nodes }),
                Err(e) => Err(e),
            },
            CMD_DHT_STORE_PROVIDER => {
                if len != CMD_DHT_STORE_PROVIDER_LEN {
                    return Err(Error::InvalidStoreProviderLength { len });
                }
                Ok(
                    StreamCommand::StoreProvider {
                        key: key_at_1(payload),
                        provider_id: NodeId::from_bytes(codec::copy_32(payload, 33)),
                    },
                )
            },
            CMD_DHT_FIND_VALUE => {
                if len != CMD_DHT_FIND_VALUE_LEN {
                    return Err(Error::InvalidFindValueLength { len });
                }
                Ok(StreamCommand::FindValue { key: key_at_1(payload) })
            },
            CMD_DHT_VALUE_FOUND => {
                if len < 2 + DHT_CONTENT_KEY_BYTES {
                    return Err(Error::InvalidValueFoundLength { len });
                }
                match deserialize_nodes(slice_subrange(payload, 33, len)) {
                    Ok(providers) => Ok(
                        StreamCommand::ValueFound { key: key_at_1(payload), providers },
                    ),
                    Err(e) => Err(e),
                }
            },
            value => Err(Error::UnknownCommand { value }),
        }
    }
}

/// Joined nodes have 32 bytes each, and each stands at its own place.
proof fn lemma_joined(nodes: Seq<Seq<u8>>)
    requires
        all_ids(nodes),
    ensures
        joined(nodes).len() == 32 * nodes.len(),
        forall|i: int|
            0 <= i < nodes.len() ==> joined(nodes).subrange(32 * i, 32 * i + 32)
                == #[trigger] nodes[i],
    decreases nodes.len(),
{
    if nodes.len() > 0 {
        let rest = nodes.drop_last();
        lemma_joined(rest);
        assert(nodes.last().len() == 32);
        assert forall|i: int| 0 <= i < nodes.len() implies joined(nodes).subrange(
            32 * i,
            32 * i + 32,
        ) == #[trigger] nodes[i] by {
            if i < rest.len() {
                assert(rest[i] == nodes[i]);
                assert(joined(nodes).subrange(32 * i, 32 * i + 32) =~= joined(rest).subrange(
                    32 * i,
                    32 * i + 32,
                ));
            } else {
                assert(joined(nodes).subrange(32 * i, 32 * i + 32) =~= nodes.last());
            }
        }
    }
}

/// A list of nodes is read back as the nodes that travel.
pub proof fn lemma_nodes_roundtrip(nodes: Seq<Seq<u8>>)
    requires
        all_ids(nodes),
    ensures
        decoded_nodes(encoded_nodes(nodes)) == Ok::<Seq<Seq<u8>>, Error>(listed(nodes)),
{
    let sent = listed(nodes);
    let wire = encoded_nodes(nodes);
    assert(all_ids(sent));
    lemma_joined(sent);
    assert forall|i: int| 0 <= i < sent.len() implies wire.subrange(1 + 32 * i, 33 + 32 * i)
        == #[trigger] sent[i] by {
        assert(wire.subrange(1 + 32 * i, 33 + 32 * i) =~= joined(sent).subrange(
            32 * i,
            32 * i + 32,
        ));
    }
    assert(decoded_nodes(wire)->Ok_0 =~= sent);
}

/// Every command is read back as itself, with its lists cut to what travels.
pub proof fn law_command_roundtrip(command: StreamCommandView)
    requires
        command.wf(),
    ensures
        StreamCommandView::decoded(command.encoded()) == Ok::<StreamCommandView, Error>(
            command.cut(),
        ),
{
    let wire = command.encoded();
    match command {
        StreamCommandView::StreamStart(config) => {
            info::law_info_roundtrip(config);
            info::lemma_info_len(config);
            assert(wire.subrange(1, 13) =~= config.encoded());
        },
        StreamCommandView::StopStream => {},
        StreamCommandView::Ping { sender_id } => {
            assert(wire.subrange(1, 33) =~= sender_id);
        },
        StreamCommandView::Pong { sender_id } => {
            assert(wire.subrange(1, 33) =~= sender_id);
        },
        StreamCommandView::FindNode { target_id } => {
            assert(wire.subrange(1, 33) =~= target_id);
        },
        StreamCommandView::NodesFound { nodes } => {
            lemma_nodes_roundtrip(nodes);
            assert(wire.subrange(1, wire.len() as int) =~= encoded_nodes(nodes));
        },
        StreamCommandView::StoreProvider { key, provider_id } => {
            assert(wire.subrange(1, 33) =~= key);
            assert(wire.subrange(33, 65) =~= provider_id);
        },
        StreamCommandView::FindValue { key } => {
            assert(wire.subrange(1, 33) =~= key);
        },
        StreamCommandView::ValueFound { key, providers } => {
            lemma_nodes_roundtrip(providers);
            assert(wire.subrange(1, 33) =~= key);
            assert(wire.subrange(33, wire.len() as int) =~= encoded_nodes(providers));
        },
    }
}

/// Every command is well-formed, but for one that starts a stream of a length beyond 40 bits.
pub proof fn law_command_is_well_formed(command: StreamCommand)
    requires
        command matches StreamCommand::StreamStart(config) ==> config.transfer_length
            < 0x100_0000_0000,
    ensures
        command@.wf(),
{
    broadcast use {id::lemma_node_id_view, id::lemma_content_key_view};

    match command {
        StreamCommand::NodesFound { nodes } => {
            assert forall|i: int| 0 <= i < nodes@.len() implies (#[trigger] node_views(
                nodes@,
            )[i]).len() == 32 by {
                id::lemma_node_id_view(nodes@[i], nodes@[i]);
            }
        },
        StreamCommand::ValueFound { key, providers } => {
            assert forall|i: int| 0 <= i < providers@.len() implies (#[trigger] node_views(
                providers@,
            )[i]).len() == 32 by {
                id::lemma_node_id_view(providers@[i], providers@[i]);
            }
        },
        _ => {},
    }
}

/// Bytes that are accepted as a command are the encoding of what they are read as, unless they
/// start a stream with a reserved byte that is not zero.
pub proof fn law_command_canonical(input: Seq<u8>)
    requires
        !(input.len() == 13 && input[0] == CMD_STREAM_START && input[6] != 0),
    ensures
        StreamCommandView::decoded(input) matches Ok(command) ==> command.encoded() == input,
{
    if let Ok(command) = StreamCommandView::decoded(input) {
        let n = input.len() as int;
        match command {
            StreamCommandView::StreamStart(config) => {
                info::law_info_canonical(input.subrange(1, 13));
            },
            StreamCommandView::NodesFound { nodes } => {
                lemma_nodes_canonical(input.subrange(1, n));
            },
            StreamCommandView::ValueFound { key, providers } => {
                lemma_nodes_canonical(input.subrange(33, n));
                assert(command.encoded() =~= seq![CMD_DHT_VALUE_FOUND] + input.subrange(1, 33)
                    + input.subrange(33, n));
            },
            _ => {},
        }
        assert(command.encoded() =~= input);
    }
}

/// Bytes that are accepted as a list of nodes are the encoding of the list they are read as.
proof fn lemma_nodes_canonical(input: Seq<u8>)
    ensures
        decoded_nodes(input) matches Ok(nodes) ==> encoded_nodes(nodes) == input && all_ids(nodes),
{
    if let Ok(nodes) = decoded_nodes(input) {
        lemma_joined(nodes);
        let all = joined(nodes);
        assert forall|k: int| 0 <= k < all.len() implies all[k] == input[1 + k] by {
            let i = k / 32;
            assert(all.subrange(32 * i, 32 * i + 32) == nodes[i]);
            assert(all[k] == all.subrange(32 * i, 32 * i + 32)[k - 32 * i]);
            assert(nodes[i][k - 32 * i] == input[1 + k]);
        }
        assert(encoded_nodes(nodes) =~= input);
    }
}

} // verus!
