//! Run-wide constants: collection names, ring size, graph parameters and
//! pacing defaults.

use vstd::prelude::*;
use crate::types::CoordinatorInfo;

verus! {

/// Collection holding the single coordinator-info document.
pub const COORD_COLLECTION_NAME: &'static str = "cmesh-coord";

/// Collection holding the single heartbeats document.
pub const HEARTBEAT_COLLECTION_NAME: &'static str = "cmesh-heartbeat";

/// Collection peers write their reports to.
pub const REPORT_COLLECTION_NAME: &'static str = "cmesh-report";

/// Collection holding the single shared peer-log document.
pub const PEER_COLLECTION_NAME: &'static str = "cmesh-peers";

/// Slots in each peer's circular log.
pub const PEER_LOG_SIZE: u32 = 16;

/// Maximum vertex out-degree of a generated spanning tree.
pub const GRAPH_SPANNING_MAX_DEGREE: usize = 3;

/// Size of the seed clique of the local-attachment model.
pub const GRAPH_LA_CLIQUE_SIZE: usize = 4;

/// Seconds a peer waits between polls for coordinator info.
pub const QUERY_POLL_SEC: u64 = 2;

/// Seconds a peer lingers after `Shutdown` so its last heartbeat replicates.
pub const REPORT_PROPAGATION_SEC: u64 = 2;

/// Seconds between heartbeat writes.
pub const HEARTBEAT_SEC: u64 = 2;

impl Default for CoordinatorInfo {
    /// The document the coordinator publishes at startup: default heartbeat
    /// collection, five-second heartbeat interval, no plan yet.
    fn default() -> (r: Self)
        ensures
            r.heartbeat_collection_name@ == HEARTBEAT_COLLECTION_NAME@,
            r.heartbeat_interval_sec == 5u32,
            r.execution_plan is None,
    {
        CoordinatorInfo {
            heartbeat_collection_name: HEARTBEAT_COLLECTION_NAME.to_owned(),
            heartbeat_interval_sec: 5,
            execution_plan: None,
        }
    }
}

} // verus!
