//! The process-wide registry: the one place where bootstrap publishes the
//! active graph, the partition assignment and the read version, and where
//! every query thread reads them.
//!
//! A registry is an ordinary value. Writers hold it exclusively and readers
//! share it, so a reader sees the state before a write or after it and
//! nothing in between. Each field is replaced on its own: a reader that
//! comes between two writes sees the first without the second.

use vstd::prelude::*;
use std::collections::HashMap;
use std::sync::Arc;
use crate::assignment::partition_lists;

verus! {

/// What a registry holds, as plain values.
pub ghost struct RegistryState<G: ?Sized> {
    /// The active graph, `None` until one is registered.
    pub graph: Option<Arc<G>>,
    /// The published partition assignment.
    pub partition_lists: Map<u32, Seq<u32>>,
    /// The server index of this process.
    pub server_index: u32,
    /// The read version; it never goes down.
    pub read_version: u32,
}

/// One write to a registry.
pub ghost enum Write<G: ?Sized> {
    /// A graph is registered.
    Graph(Arc<G>),
    /// The partition assignment is replaced.
    PartitionLists(Map<u32, Seq<u32>>),
    /// The server index is replaced.
    ServerIndex(u32),
    /// The read version is moved forward.
    ReadVersion(u32),
}

impl<G: ?Sized> RegistryState<G> {
    /// The state of a process that has not been bootstrapped: no graph, no
    /// assignment, server index 0 and read version 0.
    pub open spec fn fresh() -> Self {
        RegistryState {
            graph: None,
            partition_lists: Map::empty(),
            server_index: 0,
            read_version: 0,
        }
    }

    /// The state after `graph` was registered.
    pub open spec fn with_graph(self, graph: Arc<G>) -> Self {
        RegistryState { graph: Some(graph), ..self }
    }

    /// The state after the partition assignment was replaced.
    pub open spec fn with_partition_lists(self, lists: Map<u32, Seq<u32>>) -> Self {
        RegistryState { partition_lists: lists, ..self }
    }

    /// The state after the server index was replaced.
    pub open spec fn with_server_index(self, index: u32) -> Self {
        RegistryState { server_index: index, ..self }
    }

    /// The state after the read version was moved forward to `version`; a
    /// version below the current one changes nothing.
    pub open spec fn with_read_version(self, version: u32) -> Self {
        if version > self.read_version {
            RegistryState { read_version: version, ..self }
        } else {
            self
        }
    }

    /// The state after one write.
    pub open spec fn after(self, write: Write<G>) -> Self {
        match write {
            Write::Graph(graph) => self.with_graph(graph),
            Write::PartitionLists(lists) => self.with_partition_lists(lists),
            Write::ServerIndex(index) => self.with_server_index(index),
            Write::ReadVersion(version) => self.with_read_version(version),
        }
    }

    /// The state after a sequence of writes, the first of them first.
    pub open spec fn after_all(self, writes: Seq<Write<G>>) -> Self
        decreases writes.len(),
    {
        if writes.len() == 0 {
            self
        } else {
            self.after_all(writes.drop_last()).after(writes.last())
        }
    }
}

/// The shared state of one worker process.
pub struct Registry<G: ?Sized> {
    graph: Option<Arc<G>>,
    process_partition_lists: HashMap<u32, Vec<u32>>,
    server_index: u32,
    read_version: u32,
}

impl<G: ?Sized> View for Registry<G> {
    type V = RegistryState<G>;

    closed spec fn view(&self) -> RegistryState<G> {
        RegistryState {
            graph: self.graph,
            partition_lists: partition_lists(self.process_partition_lists),
            server_index: self.server_index,
            read_version: self.read_version,
        }
    }
}

impl<G: ?Sized> Registry<G> {
    /// The registry of a process that has not been bootstrapped.
    pub fn new() -> (r: Self)
        ensures
            r@ == RegistryState::<G>::fresh(),
    {
        let r = Registry {
            graph: None,
            process_partition_lists: HashMap::new(),
            server_index: 0,
            read_version: 0,
        };
        proof {
            assert(partition_lists(r.process_partition_lists) =~= Map::empty());
        }
        r
    }

    /// Publishes `graph` as the active graph of the process. A graph
    /// registered before is replaced; nothing else changes.
    pub fn register_graph(&mut self, graph: Arc<G>)
        ensures
            final(self)@ == old(self)@.with_graph(graph),
    {
        self.graph = Some(graph);
    }

    /// The active graph, or `None` where none has been registered yet.
    pub fn get_graph(&self) -> (r: Option<Arc<G>>)
        ensures
            r == self@.graph,
    {
        match &self.graph {
            Some(graph) => Some(graph.clone()),
            None => None,
        }
    }

    /// Replaces the published partition assignment; nothing else changes.
    pub fn replace_process_partition_lists(&mut self, new_map: HashMap<u32, Vec<u32>>)
        ensures
            final(self)@ == old(self)@.with_partition_lists(partition_lists(new_map)),
    {
        self.process_partition_lists = new_map;
    }

    /// A copy of the published partition assignment.
    pub fn get_process_partition_lists(&self) -> (r: HashMap<u32, Vec<u32>>)
        ensures
            partition_lists(r) == self@.partition_lists,
    {
        let copy = self.process_partition_lists.clone();
        proof {
            assert(partition_lists(copy) =~= partition_lists(self.process_partition_lists));
        }
        copy
    }

    /// Replaces the server index of this process; nothing else changes.
    pub fn replace_server_index(&mut self, new_index: u32)
        ensures
            final(self)@ == old(self)@.with_server_index(new_index),
    {
        self.server_index = new_index;
    }

    /// The server index of this process.
    pub fn get_server_index(&self) -> (r: u32)
        ensures
            r == self@.server_index,
    {
        self.server_index
    }

    /// Publishes what the assignment protocol produced: the cluster-wide
    /// assignment and the server index of this process.
    pub fn publish_assignment(
        &mut self,
        process_partition_lists: HashMap<u32, Vec<u32>>,
        server_index: u32,
    )
        ensures
            final(self)@ == old(self)@.with_partition_lists(
                partition_lists(process_partition_lists),
            ).with_server_index(server_index),
    {
        self.process_partition_lists = process_partition_lists;
        self.server_index = server_index;
    }

    /// Moves the read version forward to `new_version`. The read version
    /// never goes down: a `new_version` below the current one leaves it as it
    /// is.
    pub fn replace_read_version(&mut self, new_version: u32)
        ensures
            final(self)@ == old(self)@.with_read_version(new_version),
    {
        if new_version > self.read_version {
            self.read_version = new_version;
        }
    }

    /// Moves the read version forward by one and returns the new version.
    pub fn bump_read_version(&mut self) -> (r: u32)
        requires
            old(self)@.read_version < u32::MAX,
        ensures
            r == old(self)@.read_version + 1,
            final(self)@ == old(self)@.with_read_version(r),
    {
        self.read_version = self.read_version + 1;
        self.read_version
    }

    /// The current read version.
    pub fn get_read_version(&self) -> (r: u32)
        ensures
            r == self@.read_version,
    {
        self.read_version
    }
}

/// Before any graph is registered a reader finds none.
pub proof fn law_fresh_registry_has_no_graph<G: ?Sized>()
    ensures
        RegistryState::<G>::fresh().graph is None,
{
}

/// Once a graph is registered, every later reader finds that graph, whatever
/// else is written in between, until another graph is registered.
pub proof fn law_registered_graph_stays_visible<G: ?Sized>(
    before: RegistryState<G>,
    graph: Arc<G>,
    later: Seq<Write<G>>,
)
    requires
        forall|i: int| 0 <= i < later.len() ==> !(#[trigger] later[i] is Graph),
    ensures
        before.with_graph(graph).after_all(later).graph == Some(graph),
    decreases later.len(),
{
    if later.len() > 0 {
        law_registered_graph_stays_visible(before, graph, later.drop_last());
        assert(!(later[later.len() - 1] is Graph));
    }
}

/// The read version never goes down, whatever is written.
pub proof fn law_read_version_never_goes_down<G: ?Sized>(
    before: RegistryState<G>,
    writes: Seq<Write<G>>,
)
    ensures
        before.after_all(writes).read_version >= before.read_version,
    decreases writes.len(),
{
    if writes.len() > 0 {
        law_read_version_never_goes_down(before, writes.drop_last());
    }
}

} // verus!
