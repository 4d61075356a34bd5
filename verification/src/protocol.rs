//! The partition assignment protocol.
//!
//! The dataflow engine runs two collective jobs: one hands every process its
//! own server index, the other broadcasts each process's local partition list
//! to all. The functions here take what those jobs delivered and decide, in
//! the same way on every process, which server owns which partitions.

use vstd::prelude::*;
use vstd::std_specs::hash::spec_hash_map_iter;
use vstd::std_specs::iter::IteratorSpec;
use std::collections::HashMap;
use crate::error::ProtocolError;
use crate::assignment::{
    disjoint, evenly_shared, group, group_size, holds, initial_lists, inverse,
    lemma_group_finite, lemma_rank_in_bounds, owned, partition_lists, rank, resolution, resolved,
    routing, share_of, splits_evenly,
};

verus! {

/// The members of the group of `list` among the first `upto` of `servers`.
spec fn group_among(
    servers: Seq<u32>,
    upto: int,
    reported: Map<u32, Seq<u32>>,
    list: Seq<u32>,
) -> Set<u32> {
    Set::new(
        |t: u32|
            reported.contains_key(t) && reported[t] == list && exists|i: int|
                0 <= i < upto && servers[i] == t,
    )
}

/// `servers` lists every key of `lists` exactly once.
spec fn enumerates(servers: Seq<u32>, lists: Map<u32, Seq<u32>>) -> bool {
    &&& servers.no_duplicates()
    &&& forall|t: u32| servers.contains(t) <==> lists.contains_key(t)
}

/// Server `t` holds partition `p`, and the walk over `servers` has come past
/// that entry: `t` stands before position `k`, or at position `k` with `p`
/// among the first `j` partitions of its list.
spec fn passed(
    lists: Map<u32, Seq<u32>>,
    servers: Seq<u32>,
    k: int,
    j: int,
    t: u32,
    p: u32,
) -> bool {
    &&& holds(lists, t, p)
    &&& exists|i: int|
        0 <= i < servers.len() && servers[i] == t && (i < k || (i == k && exists|q: int|
            0 <= q < j && lists[t][q] == p))
}

/// `table` records exactly the holdings that the walk has come past.
spec fn records(
    table: Map<u32, u32>,
    lists: Map<u32, Seq<u32>>,
    servers: Seq<u32>,
    k: int,
    j: int,
) -> bool {
    &&& forall|p: u32| #[trigger]
        table.contains_key(p) ==> passed(lists, servers, k, j, table[p], p)
    &&& forall|t: u32, p: u32| #[trigger]
        passed(lists, servers, k, j, t, p) ==> table.contains_key(p) && table[p] == t
}

/// The server indices of an assignment, each once, in no particular order.
fn server_indices(lists: &HashMap<u32, Vec<u32>>) -> (servers: Vec<u32>)
    ensures
        enumerates(servers@, partition_lists(*lists)),
{
    broadcast use vstd::std_specs::hash::group_hash_axioms;
    broadcast use vstd::std_specs::hash::axiom_spec_hash_map_iter;

    let ghost entries = spec_hash_map_iter(lists).remaining();
    let mut servers: Vec<u32> = Vec::new();
    for entry in it: lists.iter()
        invariant
            it.seq() == entries,
            servers@.len() == it.index(),
            forall|i: int| 0 <= i < servers@.len() ==> servers@[i] == *entries[i].0,
    {
        servers.push(*entry.0);
    }
    proof {
        assert(servers@.len() == entries.len());
        assert forall|i: int, j: int|
            0 <= i < servers@.len() && 0 <= j < servers@.len() && i != j implies servers@[i]
            != servers@[j] by {
            if servers@[i] == servers@[j] {
                assert(lists@[*entries[i].0] == *entries[i].1);
                assert(lists@[*entries[j].0] == *entries[j].1);
                assert(entries[i] == entries[j]);
            }
        }
        assert forall|t: u32| servers@.contains(t) <==> partition_lists(*lists).contains_key(
            t,
        ) by {
            if servers@.contains(t) {
                let i = choose|i: int| 0 <= i < servers@.len() && servers@[i] == t;
                assert(lists@.contains_key(*entries[i].0));
            }
            if lists@.contains_key(t) {
                assert(entries.contains((&t, &lists@[t])));
                let i = choose|i: int| 0 <= i < entries.len() && entries[i] == (&t, &lists@[t]);
                assert(servers@[i] == t);
            }
        }
    }
    servers
}

/// Copies the positions from `from` up to, not including, `to`.
fn copy_range(list: &Vec<u32>, from: usize, to: usize) -> (r: Vec<u32>)
    requires
        from <= to <= list.len(),
    ensures
        r@ == list@.subrange(from as int, to as int),
{
    let mut out: Vec<u32> = Vec::new();
    let mut i: usize = from;
    while i < to
        invariant
            from <= i <= to <= list.len(),
            out@ == list@.subrange(from as int, i as int),
        decreases to - i,
    {
        out.push(list[i]);
        i = i + 1;
    }
    out
}

/// Whether two lists hold the same partitions in the same order.
fn same_list(a: &Vec<u32>, b: &Vec<u32>) -> (r: bool)
    ensures
        r == (a@ == b@),
{
    if a.len() != b.len() {
        return false;
    }
    let mut i: usize = 0;
    while i < a.len()
        invariant
            a.len() == b.len(),
            i <= a.len(),
            forall|j: int| 0 <= j < i ==> a@[j] == b@[j],
        decreases a.len() - i,
    {
        if a[i] != b[i] {
            return false;
        }
        i = i + 1;
    }
    assert(a@ =~= b@);
    true
}

/// The rank of server `s` within its group, and the size of that group.
fn position_in_group(servers: &Vec<u32>, initial: &HashMap<u32, Vec<u32>>, s: u32) -> (r: (
    usize,
    usize,
))
    requires
        enumerates(servers@, partition_lists(*initial)),
        initial@.contains_key(s),
    ensures
        r.0 == rank(partition_lists(*initial), s),
        r.1 == group_size(partition_lists(*initial), s),
        r.0 < r.1,
{
    broadcast use vstd::std_specs::hash::group_hash_axioms;

    let ghost reported = partition_lists(*initial);
    let list = initial.get(&s).unwrap();
    let mut size: usize = 0;
    let mut below: usize = 0;
    let mut j: usize = 0;
    proof {
        assert(group_among(servers@, 0, reported, list@) =~= Set::<u32>::empty());
        assert(group_among(servers@, 0, reported, list@).filter(|u: u32| u < s) =~= Set::<
            u32,
        >::empty());
    }
    while j < servers.len()
        invariant
            j <= servers.len(),
            reported == partition_lists(*initial),
            enumerates(servers@, reported),
            size <= j,
            below <= size,
            group_among(servers@, j as int, reported, list@).finite(),
            size == group_among(servers@, j as int, reported, list@).len(),
            group_among(servers@, j as int, reported, list@).filter(|u: u32| u < s).finite(),
            below == group_among(servers@, j as int, reported, list@).filter(|u: u32| u < s).len(),
        decreases servers.len() - j,
    {
        let t = servers[j];
        let ghost before = group_among(servers@, j as int, reported, list@);
        let ghost after = group_among(servers@, j + 1, reported, list@);
        proof {
            assert(servers@.contains(t));
            assert(!before.contains(t));
        }
        let other = initial.get(&t).unwrap();
        if same_list(other, list) {
            proof {
                assert(after =~= before.insert(t));
                if t < s {
                    assert(after.filter(|u: u32| u < s) =~= before.filter(|u: u32| u < s).insert(
                        t,
                    ));
                } else {
                    assert(after.filter(|u: u32| u < s) =~= before.filter(|u: u32| u < s));
                }
            }
            size = size + 1;
            if t < s {
                below = below + 1;
            }
        } else {
            proof {
                assert(after =~= before);
            }
        }
        j = j + 1;
    }
    proof {
        assert(group_among(servers@, j as int, reported, list@) =~= group(reported, reported[s]))
            by {
            assert forall|t: u32| group(reported, reported[s]).contains(t) implies group_among(
                servers@,
                j as int,
                reported,
                list@,
            ).contains(t) by {
                assert(servers@.contains(t));
            }
        }
        assert(reported.dom() =~= initial@.dom());
        lemma_group_finite(reported, reported[s]);
        lemma_rank_in_bounds(group(reported, reported[s]), s);
    }
    (below, size)
}

/// Reads back the server index that the first collective job routed to this
/// process. `first` is the first value of the job's result stream, `None`
/// where the stream ended or failed before it gave one.
pub fn discover_self_index(first: Option<u32>) -> (r: Result<u32, ProtocolError>)
    ensures
        r == match first {
            Some(index) => Ok::<u32, ProtocolError>(index),
            None => Err(ProtocolError::NoResult),
        },
{
    match first {
        Some(index) => Ok(index),
        None => Err(ProtocolError::NoResult),
    }
}

/// Resolves the lists that the broadcast job collected into the cluster-wide
/// assignment.
///
/// The pairs are `(origin, local list)` in the order in which they arrived.
/// Servers that reported the same list form a group. The list of a group is
/// cut into equal contiguous chunks, and the member at position `k` in
/// ascending order of server index keeps chunk `k`; a server that is alone
/// with its list keeps all of it. A list whose length is no multiple of its
/// group's size makes the whole resolution fail with
/// [`ProtocolError::UnevenSplit`].
pub fn resolve_partition_lists(broadcast: &Vec<(u32, Vec<u32>)>) -> (r: Result<
    HashMap<u32, Vec<u32>>,
    ProtocolError,
>)
    ensures
        match r {
            Ok(lists) => resolution(initial_lists(broadcast@)) == Ok::<
                Map<u32, Seq<u32>>,
                ProtocolError,
            >(partition_lists(lists)),
            Err(e) => resolution(initial_lists(broadcast@)) == Err::<
                Map<u32, Seq<u32>>,
                ProtocolError,
            >(e),
        },
{
    broadcast use vstd::std_specs::hash::group_hash_axioms;

    let mut initial: HashMap<u32, Vec<u32>> = HashMap::new();
    let mut i: usize = 0;
    proof {
        assert(partition_lists(initial) =~= initial_lists(broadcast@.take(0)));
    }
    while i < broadcast.len()
        invariant
            i <= broadcast.len(),
            partition_lists(initial) == initial_lists(broadcast@.take(i as int)),
        decreases broadcast.len() - i,
    {
        let origin = broadcast[i].0;
        let list = copy_range(&broadcast[i].1, 0, broadcast[i].1.len());
        let ghost lists_before = partition_lists(initial);
        initial.insert(origin, list);
        proof {
            let upto = broadcast@.take(i + 1);
            assert(upto.drop_last() =~= broadcast@.take(i as int));
            assert(upto.last() == broadcast@[i as int]);
            assert(list@ =~= broadcast@[i as int].1@);
            assert(partition_lists(initial) =~= lists_before.insert(origin, list@));
        }
        i = i + 1;
    }
    let ghost reported = partition_lists(initial);
    proof {
        assert(broadcast@.take(i as int) =~= broadcast@);
    }
    let servers = server_indices(&initial);

    let mut lists: HashMap<u32, Vec<u32>> = HashMap::new();
    let mut k: usize = 0;
    while k < servers.len()
        invariant
            k <= servers.len(),
            reported == partition_lists(initial),
            reported == initial_lists(broadcast@),
            enumerates(servers@, reported),
            forall|t: u32|
                lists@.contains_key(t) <==> exists|i: int| 0 <= i < k && servers@[i] == t,
            forall|t: u32| lists@.contains_key(t) ==> lists@[t]@ == share_of(reported, t),
            forall|i: int| 0 <= i < k ==> splits_evenly(reported, #[trigger] servers@[i]),
        decreases servers.len() - k,
    {
        let s = servers[k];
        proof {
            assert(servers@.contains(s));
        }
        let list = initial.get(&s).unwrap();
        let (position, size) = position_in_group(&servers, &initial, s);
        if list.len() % size != 0 {
            proof {
                assert(!splits_evenly(reported, s));
                assert(reported.contains_key(s));
            }
            return Err(ProtocolError::UnevenSplit);
        }
        let chunk = list.len() / size;
        proof {
            assert((position + 1) * chunk <= list.len()) by (nonlinear_arith)
                requires
                    position < size,
                    chunk == list.len() / size,
                    size > 0,
            ;
            assert(position * chunk <= (position + 1) * chunk) by (nonlinear_arith);
            assert((position + 1) * chunk == position * chunk + chunk) by (nonlinear_arith);
        }
        let from = position * chunk;
        let share = copy_range(list, from, from + chunk);
        let ghost lists_before = lists@;
        lists.insert(s, share);
        proof {
            assert(share@ == share_of(reported, s));
            assert forall|t: u32| lists@.contains_key(t) <==> exists|i: int|
                0 <= i < k + 1 && servers@[i] == t by {
                if lists@.contains_key(t) {
                    if t == s {
                        assert(servers@[k as int] == t);
                    } else {
                        assert(lists_before.contains_key(t));
                        let i = choose|i: int| 0 <= i < k && servers@[i] == t;
                        assert(0 <= i < k + 1 && servers@[i] == t);
                    }
                }
                if exists|i: int| 0 <= i < k + 1 && servers@[i] == t {
                    let i = choose|i: int| 0 <= i < k + 1 && servers@[i] == t;
                    if i < k {
                        assert(lists_before.contains_key(t));
                    }
                }
            }
        }
        k = k + 1;
    }
    proof {
        assert forall|t: u32| reported.contains_key(t) implies splits_evenly(reported, t) by {
            assert(servers@.contains(t));
            let i = choose|i: int| 0 <= i < servers@.len() && servers@[i] == t;
            assert(splits_evenly(reported, servers@[i]));
        }
        assert(evenly_shared(reported));
        assert(partition_lists(lists) =~= resolved(reported)) by {
            assert forall|t: u32| reported.contains_key(t) implies lists@.contains_key(t) by {
                assert(servers@.contains(t));
            }
            assert forall|t: u32| lists@.contains_key(t) implies reported.contains_key(t) by {
                let i = choose|i: int| 0 <= i < k && servers@[i] == t;
                assert(servers@.contains(t));
            }
        }
    }
    Ok(lists)
}

/// Runs the decisions of the assignment protocol on what the two collective
/// jobs delivered: `first` is the first value of the job that hands each
/// process its server index, `broadcast` the pairs that the broadcast job
/// collected.
///
/// Returns the server index of this process and the resolved assignment. No
/// index makes it fail with [`ProtocolError::NoResult`], whatever was
/// broadcast; otherwise the outcome is that of [`resolve_partition_lists`].
pub fn sync_global_process_partition_lists(
    first: Option<u32>,
    broadcast: &Vec<(u32, Vec<u32>)>,
) -> (r: Result<(u32, HashMap<u32, Vec<u32>>), ProtocolError>)
    ensures
        match r {
            Ok((index, lists)) => first == Some(index) && resolution(initial_lists(broadcast@))
                == Ok::<Map<u32, Seq<u32>>, ProtocolError>(partition_lists(lists)),
            Err(e) => match first {
                None => e == ProtocolError::NoResult,
                Some(_) => resolution(initial_lists(broadcast@)) == Err::<
                    Map<u32, Seq<u32>>,
                    ProtocolError,
                >(e),
            },
        },
{
    let index = match discover_self_index(first) {
        Ok(index) => index,
        Err(e) => {
            return Err(e);
        },
    };
    match resolve_partition_lists(broadcast) {
        Ok(lists) => Ok((index, lists)),
        Err(e) => Err(e),
    }
}

/// The partitions that the assignment gives to `server_index`, in order;
/// none where the assignment does not name the server.
pub fn computed_process_partition_list(
    process_partition_lists: &HashMap<u32, Vec<u32>>,
    server_index: u32,
) -> (r: Vec<u32>)
    ensures
        r@ == if partition_lists(*process_partition_lists).contains_key(server_index) {
            partition_lists(*process_partition_lists)[server_index]
        } else {
            Seq::<u32>::empty()
        },
{
    broadcast use vstd::std_specs::hash::group_hash_axioms;

    match process_partition_lists.get(&server_index) {
        Some(list) => {
            let copy = copy_range(list, 0, list.len());
            proof {
                assert(copy@ =~= list@);
            }
            copy
        },
        None => Vec::new(),
    }
}

/// Builds the routing table of an assignment: for every partition the server
/// that owns it.
///
/// Every partition of every server's list gets one entry. Where a partition
/// stands under two different server indices no table is built and the
/// result is [`ProtocolError::DuplicateOwnership`].
pub fn compute_partition_server_mapping(process_partition_lists: HashMap<u32, Vec<u32>>) -> (r:
    Result<HashMap<u32, u32>, ProtocolError>)
    ensures
        match r {
            Ok(table) => routing(partition_lists(process_partition_lists)) == Ok::<
                Map<u32, u32>,
                ProtocolError,
            >(table@),
            Err(e) => routing(partition_lists(process_partition_lists)) == Err::<
                Map<u32, u32>,
                ProtocolError,
            >(e),
        },
{
    broadcast use vstd::std_specs::hash::group_hash_axioms;

    let ghost lists = partition_lists(process_partition_lists);
    let servers = server_indices(&process_partition_lists);
    let mut table: HashMap<u32, u32> = HashMap::new();
    let mut k: usize = 0;
    while k < servers.len()
        invariant
            k <= servers.len(),
            lists == partition_lists(process_partition_lists),
            enumerates(servers@, lists),
            records(table@, lists, servers@, k as int, 0),
        decreases servers.len() - k,
    {
        let s = servers[k];
        proof {
            assert(servers@.contains(s));
        }
        let partitions = process_partition_lists.get(&s).unwrap();
        let mut j: usize = 0;
        while j < partitions.len()
            invariant
                k < servers.len(),
                j <= partitions.len(),
                s == servers@[k as int],
                lists == partition_lists(process_partition_lists),
                lists.contains_key(s),
                partitions@ == lists[s],
                enumerates(servers@, lists),
                records(table@, lists, servers@, k as int, j as int),
            decreases partitions.len() - j,
        {
            let p = partitions[j];
            let ghost table_before = table@;
            let ghost at = k as int;
            let ghost done = j as int;
            let ghost next = j + 1;
            proof {
                assert(partitions@[j as int] == p);
                assert(holds(lists, s, p));
                assert(passed(lists, servers@, at, next, s, p));
                assert forall|t: u32, q: u32|
                    passed(lists, servers@, at, done, t, q) implies passed(
                    lists,
                    servers@,
                    at,
                    next,
                    t,
                    q,
                ) by {}
            }
            match table.get(&p) {
                Some(owner) => {
                    if *owner != s {
                        proof {
                            assert(passed(lists, servers@, at, done, *owner, p));
                            assert(holds(lists, *owner, p) && holds(lists, s, p));
                            assert(!disjoint(lists));
                        }
                        return Err(ProtocolError::DuplicateOwnership);
                    }
                },
                None => {
                    table.insert(p, s);
                },
            }
            proof {
                assert(table@.contains_key(p) && table@[p] == s);
                assert forall|t: u32, q: u32|
                    passed(lists, servers@, at, next, t, q) implies table@.contains_key(q)
                    && table@[q] == t by {
                    if !passed(lists, servers@, at, done, t, q) {
                        let i = choose|i: int|
                            0 <= i < servers@.len() && servers@[i] == t && (i < k || (i == k
                                && exists|x: int| 0 <= x < j + 1 && lists[t][x] == q));
                        assert(i == k);
                        let x = choose|x: int| 0 <= x < j + 1 && lists[t][x] == q;
                        assert(x == j);
                    } else {
                        assert(table_before.contains_key(q) && table_before[q] == t);
                    }
                }
                assert forall|q: u32| #[trigger] table@.contains_key(q) implies passed(
                    lists,
                    servers@,
                    at,
                    next,
                    table@[q],
                    q,
                ) by {
                    if q != p {
                        assert(table_before.contains_key(q));
                        assert(passed(lists, servers@, at, done, table_before[q], q));
                    }
                }
            }
            j = j + 1;
        }
        let ghost at = k as int;
        let ghost done = j as int;
        let ghost after = k + 1;
        proof {
            assert forall|t: u32, q: u32|
                passed(lists, servers@, at, done, t, q) <==> passed(
                    lists,
                    servers@,
                    after,
                    0,
                    t,
                    q,
                ) by {
                if passed(lists, servers@, at, done, t, q) {
                    let i = choose|i: int|
                        0 <= i < servers@.len() && servers@[i] == t && (i < k || (i == k
                            && exists|x: int| 0 <= x < j && lists[t][x] == q));
                    assert(i < k + 1);
                }
                if passed(lists, servers@, after, 0, t, q) {
                    let i = choose|i: int|
                        0 <= i < servers@.len() && servers@[i] == t && (i < k + 1 || (i == k + 1
                            && exists|x: int| 0 <= x < 0 && lists[t][x] == q));
                    if i == k {
                        let x = choose|x: int| 0 <= x < lists[t].len() && lists[t][x] == q;
                        assert(0 <= x < j && lists[t][x] == q);
                    }
                }
            }
        }
        k = k + 1;
    }
    proof {
        assert forall|t: u32, q: u32| holds(lists, t, q) implies passed(
            lists,
            servers@,
            k as int,
            0,
            t,
            q,
        ) by {
            assert(servers@.contains(t));
        }
        assert(disjoint(lists)) by {
            assert forall|s1: u32, s2: u32, q: u32|
                holds(lists, s1, q) && holds(lists, s2, q) implies s1 == s2 by {
                assert(passed(lists, servers@, k as int, 0, s1, q));
                assert(passed(lists, servers@, k as int, 0, s2, q));
            }
        }
        assert(table@ =~= inverse(lists)) by {
            assert forall|q: u32| table@.contains_key(q) <==> owned(lists).contains(q) by {
                if table@.contains_key(q) {
                    assert(passed(lists, servers@, k as int, 0, table@[q], q));
                    assert(holds(lists, table@[q], q));
                }
                if owned(lists).contains(q) {
                    let t = choose|t: u32| holds(lists, t, q);
                    assert(passed(lists, servers@, k as int, 0, t, q));
                }
            }
            assert forall|q: u32| table@.contains_key(q) implies table@[q] == inverse(lists)[q] by {
                assert(passed(lists, servers@, k as int, 0, table@[q], q));
                let t = choose|t: u32| holds(lists, t, q);
                assert(holds(lists, table@[q], q));
                assert(passed(lists, servers@, k as int, 0, t, q));
            }
        }
    }
    Ok(table)
}

} // verus!
