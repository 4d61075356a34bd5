//! The step of bootstrap between the collective jobs and the query front
//! end: decide the assignment and publish it.

use vstd::prelude::*;
use std::collections::HashMap;
use crate::error::ProtocolError;
use crate::assignment::{partition_lists, initial_lists, resolution, routing};
use crate::protocol::{
    compute_partition_server_mapping, computed_process_partition_list,
    sync_global_process_partition_lists,
};
use crate::registry::Registry;

verus! {

/// What a process knows once the cluster has agreed on the assignment.
pub struct Assignment {
    /// The server index of this process.
    pub server_index: u32,
    /// The partitions that this process serves, in order.
    pub local_partitions: Vec<u32>,
    /// The assignment of the whole cluster.
    pub process_partition_lists: HashMap<u32, Vec<u32>>,
    /// For every partition the server that owns it.
    pub partition_servers: HashMap<u32, u32>,
}

/// An assignment as plain values.
pub ghost struct AssignmentView {
    pub server_index: u32,
    pub local_partitions: Seq<u32>,
    pub partition_lists: Map<u32, Seq<u32>>,
    pub partition_servers: Map<u32, u32>,
}

impl View for Assignment {
    type V = AssignmentView;

    open spec fn view(&self) -> AssignmentView {
        AssignmentView {
            server_index: self.server_index,
            local_partitions: self.local_partitions@,
            partition_lists: partition_lists(self.process_partition_lists),
            partition_servers: self.partition_servers@,
        }
    }
}

/// What the protocol comes to, given the server index that the first job
/// delivered and the reports that the broadcast job collected: the agreed
/// assignment, or the first error in the order no index, uneven split,
/// duplicate ownership.
pub open spec fn agreed(first: Option<u32>, reported: Map<u32, Seq<u32>>) -> Result<
    AssignmentView,
    ProtocolError,
> {
    match first {
        None => Err(ProtocolError::NoResult),
        Some(server_index) => match resolution(reported) {
            Err(e) => Err(e),
            Ok(lists) => match routing(lists) {
                Err(e) => Err(e),
                Ok(table) => Ok(
                    AssignmentView {
                        server_index: server_index,
                        local_partitions: if lists.contains_key(server_index) {
                            lists[server_index]
                        } else {
                            Seq::empty()
                        },
                        partition_lists: lists,
                        partition_servers: table,
                    },
                ),
            },
        },
    }
}

/// Decides the assignment from what the two collective jobs delivered and
/// publishes it.
///
/// Where the protocol succeeds, the registry takes the assignment and the
/// server index in one step and the agreed assignment is returned. Where it
/// fails, the registry stays as it was: nothing partial is ever published.
pub fn establish_assignment<G: ?Sized>(
    registry: &mut Registry<G>,
    first: Option<u32>,
    broadcast: &Vec<(u32, Vec<u32>)>,
) -> (r: Result<Assignment, ProtocolError>)
    ensures
        match r {
            Ok(assignment) => {
                &&& agreed(first, initial_lists(broadcast@)) == Ok::<
                    AssignmentView,
                    ProtocolError,
                >(assignment@)
                &&& final(registry)@ == old(registry)@.with_partition_lists(
                    assignment@.partition_lists,
                ).with_server_index(assignment@.server_index)
            },
            Err(e) => {
                &&& agreed(first, initial_lists(broadcast@)) == Err::<
                    AssignmentView,
                    ProtocolError,
                >(e)
                &&& final(registry)@ == old(registry)@
            },
        },
{
    let (server_index, lists) = match sync_global_process_partition_lists(first, broadcast) {
        Ok(pair) => pair,
        Err(e) => {
            return Err(e);
        },
    };
    let local_partitions = computed_process_partition_list(&lists, server_index);
    let published = lists.clone();
    proof {
        assert(partition_lists(published) =~= partition_lists(lists));
    }
    let partition_servers = match compute_partition_server_mapping(lists) {
        Ok(table) => table,
        Err(e) => {
            return Err(e);
        },
    };
    let process_partition_lists = published.clone();
    proof {
        assert(partition_lists(process_partition_lists) =~= partition_lists(published));
    }
    registry.publish_assignment(published, server_index);
    Ok(Assignment { server_index, local_partitions, process_partition_lists, partition_servers })
}

} // verus!
