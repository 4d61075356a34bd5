//! The mathematical model of partition ownership.
//!
//! Every worker process reports the partitions that its storage layer found
//! locally. Several processes may report the very same list, which then has to
//! be cut into equal, contiguous chunks, one per process, in ascending order
//! of server index. The functions below say what the outcome is; the
//! executable code in [`crate::protocol`] is proved against them.

use vstd::prelude::*;
use vstd::set_lib::*;
use vstd::relations::injective_on;
use std::collections::HashMap;
use crate::error::ProtocolError;

verus! {

/// A partition assignment as a map from server index to the ordered list of
/// partitions that the server holds.
pub open spec fn partition_lists(m: HashMap<u32, Vec<u32>>) -> Map<u32, Seq<u32>> {
    Map::new(|s: u32| m@.contains_key(s), |s: u32| m@[s]@)
}

/// The mapping from server index to reported list that a sequence of
/// broadcast pairs builds up: each pair is inserted in turn, so of two pairs
/// with the same origin the later one stays.
pub open spec fn initial_lists(broadcast: Seq<(u32, Vec<u32>)>) -> Map<u32, Seq<u32>>
    decreases broadcast.len(),
{
    if broadcast.len() == 0 {
        Map::empty()
    } else {
        initial_lists(broadcast.drop_last()).insert(broadcast.last().0, broadcast.last().1@)
    }
}

/// The servers that reported exactly `list`.
pub open spec fn group(reported: Map<u32, Seq<u32>>, list: Seq<u32>) -> Set<u32> {
    Set::new(|t: u32| reported.contains_key(t) && reported[t] == list)
}

/// How many members of `g` are smaller than `t`: the position of `t` when `g`
/// is laid out in ascending order.
pub open spec fn rank_in(g: Set<u32>, t: u32) -> nat {
    g.filter(|u: u32| u < t).len()
}

/// The number of servers that share the list of server `s`, `s` included.
pub open spec fn group_size(reported: Map<u32, Seq<u32>>, s: u32) -> nat {
    group(reported, reported[s]).len()
}

/// The position of server `s` among the servers that share its list.
pub open spec fn rank(reported: Map<u32, Seq<u32>>, s: u32) -> nat {
    rank_in(group(reported, reported[s]), s)
}

/// The list of server `s` can be cut into one chunk per member of its group.
pub open spec fn splits_evenly(reported: Map<u32, Seq<u32>>, s: u32) -> bool {
    reported[s].len() % group_size(reported, s) == 0
}

/// Every reported list can be cut evenly among the servers that share it.
pub open spec fn evenly_shared(reported: Map<u32, Seq<u32>>) -> bool {
    forall|s: u32| reported.contains_key(s) ==> splits_evenly(reported, s)
}

/// The length of the chunk that each member of the group of `s` receives.
pub open spec fn chunk_len(reported: Map<u32, Seq<u32>>, s: u32) -> nat {
    reported[s].len() / group_size(reported, s)
}

/// The chunk of its reported list that server `s` keeps.
pub open spec fn share_of(reported: Map<u32, Seq<u32>>, s: u32) -> Seq<u32> {
    let r = rank(reported, s) as int;
    let c = chunk_len(reported, s) as int;
    reported[s].subrange(r * c, (r + 1) * c)
}

/// The assignment after every shared list has been cut.
pub open spec fn resolved(reported: Map<u32, Seq<u32>>) -> Map<u32, Seq<u32>> {
    Map::new(|s: u32| reported.contains_key(s), |s: u32| share_of(reported, s))
}

/// What conflict resolution yields: the resolved assignment, or the
/// uneven-split error when some shared list cannot be cut evenly.
pub open spec fn resolution(reported: Map<u32, Seq<u32>>) -> Result<
    Map<u32, Seq<u32>>,
    ProtocolError,
> {
    if evenly_shared(reported) {
        Ok(resolved(reported))
    } else {
        Err(ProtocolError::UnevenSplit)
    }
}

/// Server `s` holds partition `p` under `lists`.
pub open spec fn holds(lists: Map<u32, Seq<u32>>, s: u32, p: u32) -> bool {
    lists.contains_key(s) && lists[s].contains(p)
}

/// All partitions that occur in some server's list.
pub open spec fn owned(lists: Map<u32, Seq<u32>>) -> Set<u32> {
    Set::new(|p: u32| exists|s: u32| holds(lists, s, p))
}

/// No partition occurs under two different server indices.
pub open spec fn disjoint(lists: Map<u32, Seq<u32>>) -> bool {
    forall|s1: u32, s2: u32, p: u32|
        #![trigger holds(lists, s1, p), holds(lists, s2, p)]
        holds(lists, s1, p) && holds(lists, s2, p) ==> s1 == s2
}

/// The routing table of an assignment: each owned partition mapped to a server
/// that holds it. Where the assignment is disjoint that server is the only one.
pub open spec fn inverse(lists: Map<u32, Seq<u32>>) -> Map<u32, u32> {
    Map::new(|p: u32| owned(lists).contains(p), |p: u32| choose|s: u32| holds(lists, s, p))
}

/// What building the routing table yields: the inverse of a disjoint
/// assignment, or the duplicate-ownership error.
pub open spec fn routing(lists: Map<u32, Seq<u32>>) -> Result<Map<u32, u32>, ProtocolError> {
    if disjoint(lists) {
        Ok(inverse(lists))
    } else {
        Err(ProtocolError::DuplicateOwnership)
    }
}

/// A group of a finite report is finite.
pub proof fn lemma_group_finite(reported: Map<u32, Seq<u32>>, list: Seq<u32>)
    requires
        reported.dom().finite(),
    ensures
        group(reported, list).finite(),
        group(reported, list).len() <= reported.dom().len(),
{
    lemma_len_subset(group(reported, list), reported.dom());
}

/// Within a finite set, the rank of a member is smaller than the size of
/// the set.
pub proof fn lemma_rank_in_bounds(g: Set<u32>, t: u32)
    requires
        g.finite(),
        g.contains(t),
    ensures
        rank_in(g, t) < g.len(),
{
    let below = g.filter(|u: u32| u < t);
    assert(below.subset_of(g.remove(t)));
    lemma_len_subset(below, g.remove(t));
}

/// Within a finite set, a larger member has a larger rank.
pub proof fn lemma_rank_in_increases(g: Set<u32>, t1: u32, t2: u32)
    requires
        g.finite(),
        g.contains(t1),
        g.contains(t2),
        t1 < t2,
    ensures
        rank_in(g, t1) < rank_in(g, t2),
{
    let below1 = g.filter(|u: u32| u < t1);
    let below2 = g.filter(|u: u32| u < t2);
    g.lemma_len_filter(|u: u32| u < t2);
    assert(below2.contains(t1));
    assert(below1.subset_of(below2.remove(t1)));
    lemma_len_subset(below1, below2.remove(t1));
}

/// Every position below the size of a finite set is the rank of one of its
/// members.
pub proof fn lemma_rank_in_onto(g: Set<u32>, r: nat)
    requires
        g.finite(),
        r < g.len(),
    ensures
        exists|t: u32| g.contains(t) && rank_in(g, t) == r,
{
    let f = |t: u32| rank_in(g, t) as int;
    let image = g.map(f);
    assert(injective_on(f, g)) by {
        assert forall|t1: u32, t2: u32|
            g.contains(t1) && g.contains(t2) && #[trigger] f(t1) == #[trigger] f(t2) implies t1
            == t2 by {
            if t1 < t2 {
                lemma_rank_in_increases(g, t1, t2);
            } else if t2 < t1 {
                lemma_rank_in_increases(g, t2, t1);
            }
        }
    }
    lemma_map_size(g, image, f);
    let range = set_int_range(0, g.len() as int);
    lemma_int_range(0, g.len() as int);
    assert(image.subset_of(range)) by {
        assert forall|i: int| image.contains(i) implies range.contains(i) by {
            let t = choose|t: u32| g.contains(t) && i == f(t);
            lemma_rank_in_bounds(g, t);
        }
    }
    lemma_subset_equality(image, range);
    assert(range.contains(r as int));
    assert(image.contains(r as int));
    let t = choose|t: u32| g.contains(t) && r as int == f(t);
    assert(g.contains(t) && rank_in(g, t) == r);
}

} // verus!
