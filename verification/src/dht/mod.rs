//! The distributed hash table: identifiers, provider records and the routing table.

pub mod bucket;
pub mod closest;
pub mod contact;
pub mod exact;
pub mod history;
pub mod id;
pub mod laws;
pub mod metrics;
pub mod routing;
pub mod storage;
pub mod storage_laws;

pub use contact::{Contact, NodeStatus};
pub use id::{ContentKey, NodeId, XorDistance, CONTENT_KEY_LEN, NODE_ID_LEN};
pub use metrics::{DhtMetrics, DhtMetricsSnapshot};
pub use storage::{DhtStorage, ProviderRecord};
pub use routing::{
    InsertOutcome, PingFailureOutcome, RoutingAction, RoutingResult, RoutingTable, K_BUCKET_COUNT,
};
