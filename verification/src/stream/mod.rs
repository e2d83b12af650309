//! The coded data plane: commands, the sender and receiver of coded objects, a network that
//! misbehaves on purpose, and what a transfer counts.

pub mod chaos;
pub mod command;
pub mod history;
pub mod info;
pub mod raptor;
pub mod receiver;
pub mod sender;
pub mod telemetry;

pub use chaos::{ChaosConfig, ChaosScope, DirtyNetwork};
pub use command::{
    StreamCommand, CMD_DHT_FIND_NODE, CMD_DHT_FIND_VALUE, CMD_DHT_FIND_VALUE_LEN,
    CMD_DHT_NODES_FOUND, CMD_DHT_NODE_ID_LEN, CMD_DHT_PING, CMD_DHT_PONG, CMD_DHT_STORE_PROVIDER,
    CMD_DHT_STORE_PROVIDER_LEN, CMD_DHT_VALUE_FOUND, CMD_STOP_STREAM, CMD_STREAM_START,
    DHT_CONTENT_KEY_BYTES, DHT_NODE_ID_BYTES,
};
pub use info::ObjectTransmissionInformation;
pub use receiver::{StreamControlEvent, StreamReceiver};
pub use sender::{can_encode, StreamSender};
pub use telemetry::{StreamMetrics, StreamTelemetry};
