//! What holds of every assignment that the protocol produces.
//!
//! Each proof function states one law over the model of
//! [`crate::assignment`], which is the model that the contracts of
//! [`crate::protocol`] are written in.

use vstd::prelude::*;
use crate::error::ProtocolError;
use crate::assignment::{
    chunk_len, disjoint, evenly_shared, group, group_size, holds, initial_lists, inverse,
    lemma_group_finite, lemma_rank_in_bounds, lemma_rank_in_increases, lemma_rank_in_onto, owned,
    rank, rank_in, resolution, resolved, routing, share_of, splits_evenly,
};
use crate::bootstrap::{agreed, AssignmentView};

verus! {

/// Some pair of `broadcast` says that server `s` reported `list`.
pub open spec fn reports(broadcast: Seq<(u32, Vec<u32>)>, s: u32, list: Seq<u32>) -> bool {
    exists|i: int| 0 <= i < broadcast.len() && broadcast[i].0 == s && broadcast[i].1@ == list
}

/// No two pairs of `broadcast` have the same origin.
pub open spec fn origins_distinct(broadcast: Seq<(u32, Vec<u32>)>) -> bool {
    forall|i: int, j: int| 0 <= i < j < broadcast.len() ==> broadcast[i].0 != broadcast[j].0
}

/// Two servers reported either the very same list or lists without a common
/// partition, and no list names a partition twice.
pub open spec fn cleanly_reported(reported: Map<u32, Seq<u32>>) -> bool {
    &&& forall|s: u32| reported.contains_key(s) ==> #[trigger] reported[s].no_duplicates()
    &&& forall|s1: u32, s2: u32, p: u32|
        #![trigger holds(reported, s1, p), holds(reported, s2, p)]
        holds(reported, s1, p) && holds(reported, s2, p) ==> reported[s1] == reported[s2]
}

/// The member of the group of `list` that stands at position `r` in
/// ascending order of server index.
pub open spec fn member_at(reported: Map<u32, Seq<u32>>, list: Seq<u32>, r: nat) -> u32 {
    choose|t: u32| group(reported, list).contains(t) && rank_in(group(reported, list), t) == r
}

/// The chunks of the first `n` members of the group of `list`, in ascending
/// order of server index, one after the other.
pub open spec fn joined_shares(reported: Map<u32, Seq<u32>>, list: Seq<u32>, n: nat) -> Seq<u32>
    decreases n,
{
    if n == 0 {
        Seq::empty()
    } else {
        joined_shares(reported, list, (n - 1) as nat) + share_of(
            reported,
            member_at(reported, list, (n - 1) as nat),
        )
    }
}

/// The share of a server is a window of the list it reported: it starts at
/// rank times chunk length and is one chunk long.
pub proof fn lemma_share_window(reported: Map<u32, Seq<u32>>, s: u32)
    requires
        reported.dom().finite(),
        reported.contains_key(s),
    ensures
        0 < group_size(reported, s),
        rank(reported, s) < group_size(reported, s),
        rank(reported, s) * chunk_len(reported, s) + chunk_len(reported, s) <= reported[s].len(),
        share_of(reported, s) == reported[s].subrange(
            (rank(reported, s) * chunk_len(reported, s)) as int,
            (rank(reported, s) * chunk_len(reported, s) + chunk_len(reported, s)) as int,
        ),
        share_of(reported, s).len() == chunk_len(reported, s),
        forall|i: int|
            0 <= i < chunk_len(reported, s) ==> #[trigger] share_of(reported, s)[i]
                == reported[s][rank(reported, s) * chunk_len(reported, s) + i],
{
    let g = group(reported, reported[s]);
    lemma_group_finite(reported, reported[s]);
    assert(g.contains(s));
    lemma_rank_in_bounds(g, s);
    let r = rank(reported, s) as int;
    let n = group_size(reported, s) as int;
    let len = reported[s].len() as int;
    let c = chunk_len(reported, s) as int;
    assert(c == len / n);
    assert((r + 1) * c <= len) by (nonlinear_arith)
        requires
            0 <= r < n,
            c == len / n,
            0 <= len,
    ;
    assert(0 <= r * c <= (r + 1) * c && (r + 1) * c == r * c + c) by (nonlinear_arith)
        requires
            0 <= r,
            0 <= c,
    ;
}

/// The mapping that a sequence of broadcast pairs builds up names finitely
/// many servers.
pub proof fn lemma_initial_lists_finite(broadcast: Seq<(u32, Vec<u32>)>)
    ensures
        initial_lists(broadcast).dom().finite(),
    decreases broadcast.len(),
{
    if broadcast.len() > 0 {
        lemma_initial_lists_finite(broadcast.drop_last());
    }
}

/// Resolution neither creates nor loses a partition: the partitions of the
/// resolved assignment are those of the reports.
pub proof fn law_partitions_conserved(reported: Map<u32, Seq<u32>>)
    requires
        reported.dom().finite(),
        evenly_shared(reported),
    ensures
        owned(resolved(reported)) == owned(reported),
{
    let after = resolved(reported);
    assert forall|p: u32| owned(after).contains(p) implies owned(reported).contains(p) by {
        let s = choose|s: u32| holds(after, s, p);
        lemma_share_window(reported, s);
        let i = choose|i: int| 0 <= i < after[s].len() && after[s][i] == p;
        let at = rank(reported, s) * chunk_len(reported, s) + i;
        assert(after[s] == share_of(reported, s));
        assert(share_of(reported, s)[i] == p);
        assert(0 <= at < reported[s].len() && reported[s][at] == p);
        assert(holds(reported, s, p));
    }
    assert forall|p: u32| owned(reported).contains(p) implies owned(after).contains(p) by {
        let s = choose|s: u32| holds(reported, s, p);
        let list = reported[s];
        let i = choose|i: int| 0 <= i < list.len() && list[i] == p;
        let g = group(reported, list);
        lemma_share_window(reported, s);
        lemma_group_finite(reported, list);
        let n = g.len() as int;
        let len = list.len() as int;
        let c = len / n;
        assert(splits_evenly(reported, s));
        assert(len == n * c && 0 < c && 0 <= i / c < n && 0 <= i - (i / c) * c < c)
            by (nonlinear_arith)
            requires
                0 < n,
                0 <= i < len,
                len % n == 0,
                c == len / n,
        ;
        let r = (i / c) as nat;
        lemma_rank_in_onto(g, r);
        let t = choose|t: u32| g.contains(t) && rank_in(g, t) == r;
        assert(reported[t] == list);
        lemma_share_window(reported, t);
        assert(share_of(reported, t)[i - r * c] == p);
        assert(holds(after, t, p));
    }
    assert(owned(after) =~= owned(reported));
}

/// Where every process reported once and the resolution succeeds, the
/// resolved assignment holds exactly the partitions that stand in some
/// broadcast list.
pub proof fn law_broadcast_partitions_conserved(broadcast: Seq<(u32, Vec<u32>)>)
    requires
        origins_distinct(broadcast),
        evenly_shared(initial_lists(broadcast)),
    ensures
        forall|p: u32|
            owned(resolved(initial_lists(broadcast))).contains(p) <==> exists|i: int|
                0 <= i < broadcast.len() && (#[trigger] broadcast[i]).1@.contains(p),
{
    let reported = initial_lists(broadcast);
    lemma_initial_lists_finite(broadcast);
    lemma_initial_lists_of_distinct(broadcast);
    law_partitions_conserved(reported);
    assert forall|p: u32| owned(reported).contains(p) <==> exists|i: int|
        0 <= i < broadcast.len() && (#[trigger] broadcast[i]).1@.contains(p) by {
        if owned(reported).contains(p) {
            let s = choose|s: u32| holds(reported, s, p);
            let i = choose|i: int| 0 <= i < broadcast.len() && broadcast[i].0 == s;
            assert(reported[broadcast[i].0] == broadcast[i].1@);
            assert(broadcast[i].1@.contains(p));
        }
        if exists|i: int| 0 <= i < broadcast.len() && (#[trigger] broadcast[i]).1@.contains(p) {
            let i = choose|i: int|
                0 <= i < broadcast.len() && (#[trigger] broadcast[i]).1@.contains(p);
            assert(reported[broadcast[i].0] == broadcast[i].1@);
            assert(holds(reported, broadcast[i].0, p));
        }
    }
}

/// Where the reports are clean (two servers report the same list or lists
/// with nothing in common, and no list repeats a partition), no partition of
/// the resolved assignment stands under two servers.
pub proof fn law_clean_reports_resolve_disjoint(reported: Map<u32, Seq<u32>>)
    requires
        reported.dom().finite(),
        evenly_shared(reported),
        cleanly_reported(reported),
    ensures
        disjoint(resolved(reported)),
        routing(resolved(reported)) is Ok,
{
    let after = resolved(reported);
    assert forall|s1: u32, s2: u32, p: u32|
        holds(after, s1, p) && holds(after, s2, p) implies s1 == s2 by {
        lemma_share_window(reported, s1);
        lemma_share_window(reported, s2);
        let i1 = choose|i: int| 0 <= i < after[s1].len() && after[s1][i] == p;
        let i2 = choose|i: int| 0 <= i < after[s2].len() && after[s2][i] == p;
        let c = chunk_len(reported, s1) as int;
        let r1 = rank(reported, s1) as int;
        let r2 = rank(reported, s2) as int;
        let at1 = r1 * c + i1;
        let at2 = rank(reported, s2) * chunk_len(reported, s2) + i2;
        assert(after[s1] == share_of(reported, s1));
        assert(after[s2] == share_of(reported, s2));
        assert(share_of(reported, s1)[i1] == p);
        assert(share_of(reported, s2)[i2] == p);
        assert(0 <= at1 < reported[s1].len() && reported[s1][at1] == p);
        assert(0 <= at2 < reported[s2].len() && reported[s2][at2] == p);
        assert(holds(reported, s1, p) && holds(reported, s2, p));
        let list = reported[s1];
        assert(reported[s2] == list);
        assert(list.no_duplicates());
        assert(at1 == at2);
        let g = group(reported, list);
        lemma_group_finite(reported, list);
        if s1 < s2 {
            lemma_rank_in_increases(g, s1, s2);
            assert(r1 * c + c <= r2 * c) by (nonlinear_arith)
                requires
                    r1 < r2,
                    0 <= c,
            ;
        } else if s2 < s1 {
            lemma_rank_in_increases(g, s2, s1);
            assert(r2 * c + c <= r1 * c) by (nonlinear_arith)
                requires
                    r2 < r1,
                    0 <= c,
            ;
        }
    }
}

/// A routing table exists exactly for the assignments in which no partition
/// stands under two servers; every other assignment is refused as duplicate
/// ownership.
pub proof fn law_routed_assignments_are_disjoint(lists: Map<u32, Seq<u32>>)
    ensures
        routing(lists) is Ok <==> disjoint(lists),
        routing(lists) is Err ==> routing(lists) == Err::<Map<u32, u32>, ProtocolError>(
            ProtocolError::DuplicateOwnership,
        ),
{
}

/// With distinct origins, the initial mapping holds exactly the reported
/// pairs.
pub proof fn lemma_initial_lists_of_distinct(broadcast: Seq<(u32, Vec<u32>)>)
    requires
        origins_distinct(broadcast),
    ensures
        forall|s: u32|
            initial_lists(broadcast).contains_key(s) <==> exists|i: int|
                0 <= i < broadcast.len() && broadcast[i].0 == s,
        forall|i: int|
            0 <= i < broadcast.len() ==> initial_lists(broadcast)[#[trigger] broadcast[i].0]
                == broadcast[i].1@,
    decreases broadcast.len(),
{
    if broadcast.len() > 0 {
        let front = broadcast.drop_last();
        let last = broadcast.last();
        lemma_initial_lists_of_distinct(front);
        assert(initial_lists(broadcast) == initial_lists(front).insert(last.0, last.1@));
        assert forall|s: u32|
            initial_lists(broadcast).contains_key(s) <==> exists|i: int|
                0 <= i < broadcast.len() && broadcast[i].0 == s by {
            if initial_lists(broadcast).contains_key(s) {
                if s == last.0 {
                    assert(broadcast[broadcast.len() - 1].0 == s);
                } else {
                    assert(initial_lists(front).contains_key(s));
                    let i = choose|i: int| 0 <= i < front.len() && front[i].0 == s;
                    assert(front[i] == broadcast[i]);
                }
            }
            if exists|i: int| 0 <= i < broadcast.len() && broadcast[i].0 == s {
                let i = choose|i: int| 0 <= i < broadcast.len() && broadcast[i].0 == s;
                if i < front.len() {
                    assert(front[i].0 == s);
                    assert(initial_lists(front).contains_key(s));
                }
            }
        }
        assert forall|i: int| 0 <= i < broadcast.len() implies initial_lists(
            broadcast,
        )[#[trigger] broadcast[i].0] == broadcast[i].1@ by {
            if i < front.len() {
                assert(front[i] == broadcast[i]);
                assert(initial_lists(front)[front[i].0] == front[i].1@);
            }
        }
    }
}

/// The order in which the broadcast pairs arrive does not matter. Two
/// processes that collected the same pairs, one per origin, start from the
/// same mapping and so reach the same resolution and the same routing table.
pub proof fn law_arrival_order_is_irrelevant(
    first: Seq<(u32, Vec<u32>)>,
    second: Seq<(u32, Vec<u32>)>,
)
    requires
        origins_distinct(first),
        origins_distinct(second),
        forall|s: u32, list: Seq<u32>| reports(first, s, list) <==> reports(second, s, list),
    ensures
        initial_lists(first) == initial_lists(second),
        resolution(initial_lists(first)) == resolution(initial_lists(second)),
        routing(resolved(initial_lists(first))) == routing(resolved(initial_lists(second))),
{
    lemma_initial_lists_of_distinct(first);
    lemma_initial_lists_of_distinct(second);
    let a = initial_lists(first);
    let b = initial_lists(second);
    assert forall|s: u32| a.contains_key(s) implies b.contains_key(s) && a[s] == b[s] by {
        let i = choose|i: int| 0 <= i < first.len() && first[i].0 == s;
        assert(reports(first, s, first[i].1@));
        assert(reports(second, s, first[i].1@));
        let j = choose|j: int|
            0 <= j < second.len() && second[j].0 == s && second[j].1@ == first[i].1@;
        assert(b[second[j].0] == second[j].1@);
        assert(a[first[i].0] == first[i].1@);
    }
    assert forall|s: u32| b.contains_key(s) implies a.contains_key(s) by {
        let j = choose|j: int| 0 <= j < second.len() && second[j].0 == s;
        assert(reports(second, s, second[j].1@));
        assert(reports(first, s, second[j].1@));
    }
    assert(a =~= b);
}

/// An outcome is a function of the reports alone. Whatever two processes
/// computed from the same reports, both within what the protocol allows, is
/// the same assignment and the same routing table.
pub proof fn law_outcome_is_determined(
    reported: Map<u32, Seq<u32>>,
    lists_a: Map<u32, Seq<u32>>,
    lists_b: Map<u32, Seq<u32>>,
    table_a: Map<u32, u32>,
    table_b: Map<u32, u32>,
)
    requires
        resolution(reported) == Ok::<Map<u32, Seq<u32>>, ProtocolError>(lists_a),
        resolution(reported) == Ok::<Map<u32, Seq<u32>>, ProtocolError>(lists_b),
        routing(lists_a) == Ok::<Map<u32, u32>, ProtocolError>(table_a),
        routing(lists_b) == Ok::<Map<u32, u32>, ProtocolError>(table_b),
    ensures
        lists_a == lists_b,
        table_a == table_b,
{
}

/// One server whose list cannot be cut evenly among its group makes the
/// resolution fail, and no assignment comes out of it.
pub proof fn law_uneven_split_is_fatal(reported: Map<u32, Seq<u32>>, s: u32)
    requires
        reported.contains_key(s),
        reported[s].len() % group_size(reported, s) != 0,
    ensures
        resolution(reported) == Err::<Map<u32, Seq<u32>>, ProtocolError>(
            ProtocolError::UnevenSplit,
        ),
        agreed(Some(s), reported) is Err,
{
    assert(!splits_evenly(reported, s));
}

/// A server whose list divides evenly among its group receives exactly the
/// length of the list divided by the size of the group.
pub proof fn law_even_split_sizes(reported: Map<u32, Seq<u32>>, s: u32)
    requires
        reported.dom().finite(),
        reported.contains_key(s),
        splits_evenly(reported, s),
    ensures
        resolved(reported)[s].len() == reported[s].len() / group_size(reported, s),
        resolved(reported)[s].len() * group_size(reported, s) == reported[s].len(),
{
    lemma_share_window(reported, s);
    let n = group_size(reported, s) as int;
    let len = reported[s].len() as int;
    assert((len / n) * n == len) by (nonlinear_arith)
        requires
            0 < n,
            0 <= len,
            len % n == 0,
    ;
}

/// A server that is alone with its list keeps all of it, in the same order.
pub proof fn law_lone_server_keeps_its_list(reported: Map<u32, Seq<u32>>, s: u32)
    requires
        reported.dom().finite(),
        reported.contains_key(s),
        group_size(reported, s) == 1,
    ensures
        splits_evenly(reported, s),
        resolved(reported)[s] == reported[s],
{
    lemma_share_window(reported, s);
    assert(share_of(reported, s) =~= reported[s]);
}

/// The first `n` members of a group, taken in ascending order, hold between
/// them the first `n` chunks of the shared list.
proof fn lemma_joined_shares_prefix(reported: Map<u32, Seq<u32>>, s: u32, n: nat)
    requires
        reported.dom().finite(),
        reported.contains_key(s),
        n <= group_size(reported, s),
    ensures
        n * chunk_len(reported, s) <= reported[s].len(),
        joined_shares(reported, reported[s], n) == reported[s].subrange(
            0,
            (n * chunk_len(reported, s)) as int,
        ),
    decreases n,
{
    let list = reported[s];
    let g = group(reported, list);
    let c = chunk_len(reported, s) as int;
    let size = group_size(reported, s) as int;
    let len = list.len() as int;
    lemma_group_finite(reported, list);
    assert(n * c <= len) by (nonlinear_arith)
        requires
            0 <= n <= size,
            c == len / size,
            0 <= len,
            0 < size || n == 0,
    ;
    if n == 0 {
        assert(n * c == 0) by (nonlinear_arith)
            requires
                n == 0,
        ;
        assert(joined_shares(reported, list, n) =~= list.subrange(0, n * c));
    } else {
        let r = (n - 1) as nat;
        lemma_joined_shares_prefix(reported, s, r);
        lemma_rank_in_onto(g, r);
        let t = member_at(reported, list, r);
        assert(g.contains(t) && rank_in(g, t) == r);
        assert(reported[t] == list);
        lemma_share_window(reported, t);
        assert(r * c + c == n * c) by (nonlinear_arith)
            requires
                r == n - 1,
        ;
        assert(share_of(reported, t) =~= list.subrange(r * c, n * c));
        assert(list.subrange(0, r * c) + list.subrange(r * c, n * c) =~= list.subrange(0, n * c));
    }
}

/// The chunks of the members of a group, joined in ascending order of server
/// index, give back the shared list as it was reported; and that order of
/// the members is strictly ascending.
pub proof fn law_even_split_rejoins(reported: Map<u32, Seq<u32>>, s: u32)
    requires
        reported.dom().finite(),
        reported.contains_key(s),
        splits_evenly(reported, s),
    ensures
        joined_shares(reported, reported[s], group_size(reported, s)) == reported[s],
        forall|r1: nat, r2: nat|
            r1 < r2 < group_size(reported, s) ==> #[trigger] member_at(reported, reported[s], r1)
                < #[trigger] member_at(reported, reported[s], r2),
{
    let list = reported[s];
    let g = group(reported, list);
    let size = group_size(reported, s);
    lemma_group_finite(reported, list);
    lemma_joined_shares_prefix(reported, s, size);
    law_even_split_sizes(reported, s);
    lemma_share_window(reported, s);
    assert(size * chunk_len(reported, s) == list.len()) by (nonlinear_arith)
        requires
            chunk_len(reported, s) * size == list.len(),
    ;
    assert(list.subrange(0, list.len() as int) =~= list);
    assert forall|r1: nat, r2: nat| r1 < r2 < size implies #[trigger] member_at(
        reported,
        list,
        r1,
    ) < #[trigger] member_at(reported, list, r2) by {
        lemma_rank_in_onto(g, r1);
        lemma_rank_in_onto(g, r2);
        let t1 = member_at(reported, list, r1);
        let t2 = member_at(reported, list, r2);
        if t2 < t1 {
            lemma_rank_in_increases(g, t2, t1);
        }
    }
}

/// In the routing table of a disjoint assignment every partition of a
/// server's list leads back to that server, and every entry of the table
/// names a server whose list holds the partition.
pub proof fn law_routing_table_is_inverse(lists: Map<u32, Seq<u32>>)
    requires
        disjoint(lists),
    ensures
        inverse(lists).dom() == owned(lists),
        forall|s: u32, p: u32| #[trigger]
            holds(lists, s, p) ==> inverse(lists).contains_key(p) && inverse(lists)[p] == s,
        forall|p: u32| #[trigger]
            inverse(lists).contains_key(p) ==> holds(lists, inverse(lists)[p], p),
{
    assert(inverse(lists).dom() =~= owned(lists));
    assert forall|s: u32, p: u32| #[trigger] holds(lists, s, p) implies inverse(
        lists,
    ).contains_key(p) && inverse(lists)[p] == s by {
        let t = choose|t: u32| holds(lists, t, p);
        assert(holds(lists, t, p) && holds(lists, s, p));
    }
    assert forall|p: u32| #[trigger] inverse(lists).contains_key(p) implies holds(
        lists,
        inverse(lists)[p],
        p,
    ) by {
        let t = choose|t: u32| holds(lists, t, p);
    }
}

/// What the protocol agrees on is sound: it holds exactly the partitions
/// that were reported, no partition under two servers, the routing table is
/// the inverse of the assignment, and this process serves what the
/// assignment gives to its server index.
pub proof fn law_agreed_assignment_is_sound(
    first: Option<u32>,
    broadcast: Seq<(u32, Vec<u32>)>,
    assignment: AssignmentView,
)
    requires
        agreed(first, initial_lists(broadcast)) == Ok::<AssignmentView, ProtocolError>(assignment),
    ensures
        first == Some(assignment.server_index),
        assignment.partition_lists.dom() == initial_lists(broadcast).dom(),
        owned(assignment.partition_lists) == owned(initial_lists(broadcast)),
        disjoint(assignment.partition_lists),
        assignment.partition_servers.dom() == owned(initial_lists(broadcast)),
        forall|s: u32, p: u32| #[trigger]
            holds(assignment.partition_lists, s, p) ==> assignment.partition_servers[p] == s,
        forall|p: u32| #[trigger]
            assignment.partition_servers.contains_key(p) ==> holds(
                assignment.partition_lists,
                assignment.partition_servers[p],
                p,
            ),
        forall|p: u32|
            assignment.local_partitions.contains(p) <==> holds(
                assignment.partition_lists,
                assignment.server_index,
                p,
            ),
{
    let reported = initial_lists(broadcast);
    lemma_initial_lists_finite(broadcast);
    law_partitions_conserved(reported);
    law_routing_table_is_inverse(assignment.partition_lists);
    assert(assignment.partition_lists.dom() =~= reported.dom());
}

} // verus!
