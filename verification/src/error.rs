//! Errors raised while a worker process joins the cluster.

use vstd::prelude::*;

verus! {

/// Why the partition assignment protocol could not complete.
#[derive(Clone, Copy, Debug, PartialEq, Eq, Structural)]
pub enum ProtocolError {
    /// A collective operation produced no value for this process.
    NoResult,
    /// A partition list shared by several processes cannot be cut into equal chunks.
    UnevenSplit,
    /// One partition ended up under two different server indices.
    DuplicateOwnership,
}

/// A setting that every worker process needs at start.
#[derive(Clone, Copy, Debug, PartialEq, Eq, Structural)]
pub enum SettingKey {
    /// `rpc.port`: the port on which the process serves queries.
    RpcPort,
    /// `server.id`: the identifier of the process within the cluster.
    ServerId,
    /// `server.size`: the number of processes of the cluster.
    ServerSize,
    /// `network.servers`: the addresses of all processes, `host:port`
    /// separated by commas.
    NetworkServers,
    /// `graph.vineyard.object.id`: the identifier of the graph in the store.
    GraphObjectId,
}

/// Why the settings of a worker process could not be read.
#[derive(Clone, Copy, Debug, PartialEq, Eq, Structural)]
pub enum ConfigError {
    /// The properties source is no well-formed properties text.
    Unreadable,
    /// A required setting is not there.
    Missing(SettingKey),
    /// A setting is there, and its value cannot be read.
    Malformed(SettingKey),
    /// `network.servers` does not list as many addresses as `server.size` says.
    ServerCountMismatch,
}

/// Why a graph operation failed. That nothing matched is no failure.
#[derive(Clone, Copy, Debug, PartialEq, Eq, Structural)]
pub enum GraphProxyError {
    /// The parameters of the call are malformed.
    InvalidParameters,
    /// The storage engine reported a fault.
    StorageFault,
}

} // verus!
