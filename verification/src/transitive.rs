//! The transitive next event of a node: the earliest tag at which the node
//! may have an event, counting the events that its upstream nodes may send
//! it.

use crate::rti_common::{RTICommon, SchedulingNode, SchedulingNodeState};
use crate::tag::{Instant, Interval, Tag};
use vstd::prelude::*;

verus! {

/// The number of nodes that the marks leave unmarked.
pub open spec fn unvisited(marks: Seq<bool>) -> nat
    decreases marks.len(),
{
    if marks.len() == 0 {
        0
    } else {
        unvisited(marks.drop_last()) + if marks.last() {
            0nat
        } else {
            1nat
        }
    }
}

/// Whether the marks `a` mark every node that the marks `b` mark.
pub open spec fn covers(a: Seq<bool>, b: Seq<bool>) -> bool {
    &&& a.len() == b.len()
    &&& forall|k: int| 0 <= k < b.len() && b[k] ==> #[trigger] a[k]
}

/// The marks of `a` together with those of `b`.
pub open spec fn merged(a: Seq<bool>, b: Seq<bool>) -> Seq<bool> {
    Seq::new(a.len(), |k: int| a[k] || (0 <= k < b.len() && b[k]))
}

/// A tag not before the start time: a tag before it gives way to the start
/// time at microstep zero.
pub open spec fn not_before_start(tag: Tag, start_time: Instant) -> Tag {
    if tag.time < start_time {
        Tag { time: start_time, microstep: 0 }
    } else {
        tag
    }
}

/// The later of two tags.
pub open spec fn later(a: Tag, b: Tag) -> Tag {
    if a.lt(b) {
        b
    } else {
        a
    }
}

pub proof fn lemma_unvisited_covers(a: Seq<bool>, b: Seq<bool>)
    requires
        covers(a, b),
    ensures
        unvisited(a) <= unvisited(b),
    decreases a.len(),
{
    if a.len() > 0 {
        assert(b.last() ==> a[a.len() - 1]);
        assert(covers(a.drop_last(), b.drop_last())) by {
            let shorter_a = a.drop_last();
            let shorter_b = b.drop_last();
            assert forall|k: int|
                0 <= k < shorter_b.len() && shorter_b[k] implies #[trigger] shorter_a[k] by {
                assert(b[k] ==> a[k]);
            }
        }
        lemma_unvisited_covers(a.drop_last(), b.drop_last());
    }
}

pub proof fn lemma_unvisited_mark(marks: Seq<bool>, k: int)
    requires
        0 <= k < marks.len(),
        !marks[k],
    ensures
        unvisited(marks.update(k, true)) + 1 == unvisited(marks),
    decreases marks.len(),
{
    if k == marks.len() - 1 {
        assert(marks.update(k, true).drop_last() =~= marks.drop_last());
    } else {
        assert(marks.update(k, true).drop_last() =~= marks.drop_last().update(k, true));
        lemma_unvisited_mark(marks.drop_last(), k);
    }
}

pub proof fn lemma_merged(a: Seq<bool>, b: Seq<bool>)
    ensures
        covers(merged(a, b), a),
        unvisited(merged(a, b)) <= unvisited(a),
        covers(b, a) ==> merged(a, b) == b,
{
    assert(covers(merged(a, b), a));
    lemma_unvisited_covers(merged(a, b), a);
    if covers(b, a) {
        assert(merged(a, b) =~= b);
    }
}

/// The transitive next event of node `e` for the candidate tag
/// `candidate`, and the marks after the search, as a pair.
///
/// A node that is marked or not connected passes the candidate on. Any
/// other node is marked. Its own bound is the earlier of its next event tag
/// and the candidate, but not before the start time. Each upstream
/// connection in turn can lower the bound: to the transitive next event of
/// the connection's origin for the bound so far, delayed by the connection.
/// The result is not below the completed tag of the node.
pub open spec fn transitive_next_event_from(
    nodes: Seq<SchedulingNode>,
    e: SchedulingNode,
    candidate: Tag,
    visited: Seq<bool>,
    start_time: Instant,
) -> (Tag, Seq<bool>)
    decreases unvisited(visited), 0nat,
{
    if !(e.id < visited.len()) || visited[e.id as int] || e.state
        == SchedulingNodeState::NotConnected {
        (candidate, visited)
    } else {
        let marked = visited.update(e.id as int, true);
        let own = not_before_start(e.next_event.min(candidate), start_time);
        proof {
            lemma_unvisited_mark(visited, e.id as int);
        }
        let found = transitive_upstream(
            nodes,
            e,
            own,
            marked,
            start_time,
            e.upstream@.len() as nat,
        );
        (later(found.0, e.completed), found.1)
    }
}

/// The bound of node `e` after its first `i` upstream connections, from
/// the bound `own` of the node itself, and the marks at that point.
pub open spec fn transitive_upstream(
    nodes: Seq<SchedulingNode>,
    e: SchedulingNode,
    own: Tag,
    marked: Seq<bool>,
    start_time: Instant,
    i: nat,
) -> (Tag, Seq<bool>)
    decreases unvisited(marked), i + 1,
{
    if i == 0 {
        (own, marked)
    } else {
        let so_far = transitive_upstream(nodes, e, own, marked, start_time, (i - 1) as nat);
        let marks = merged(marked, so_far.1);
        proof {
            lemma_merged(marked, so_far.1);
        }
        let upstream = transitive_next_event_from(
            nodes,
            nodes[e.upstream@[i - 1] as int],
            so_far.0,
            marks,
            start_time,
        );
        (so_far.0.min(upstream.0.delay(e.upstream_delay@[i - 1])), upstream.1)
    }
}

/// The upstream connections can only lower the bound of a node.
proof fn lemma_transitive_upstream_lowers(
    nodes: Seq<SchedulingNode>,
    e: SchedulingNode,
    own: Tag,
    marked: Seq<bool>,
    start_time: Instant,
    i: nat,
)
    ensures
        transitive_upstream(nodes, e, own, marked, start_time, i).0.le(own),
    decreases i,
{
    if i > 0 {
        lemma_transitive_upstream_lowers(nodes, e, own, marked, start_time, (i - 1) as nat);
    }
}

/// The transitive next event of a connected node that the search has not
/// been through lies between the completed tag of the node and the later
/// of that tag and the node's own bound: the earlier of its next event tag
/// and the candidate, but not before the start time.
pub proof fn lemma_transitive_next_event_bounds(
    nodes: Seq<SchedulingNode>,
    e: SchedulingNode,
    candidate: Tag,
    visited: Seq<bool>,
    start_time: Instant,
)
    requires
        e.id < visited.len(),
        !visited[e.id as int],
        e.state != SchedulingNodeState::NotConnected,
    ensures
        e.completed.le(transitive_next_event_from(nodes, e, candidate, visited, start_time).0),
        transitive_next_event_from(nodes, e, candidate, visited, start_time).0.le(
            later(not_before_start(e.next_event.min(candidate), start_time), e.completed),
        ),
{
    lemma_transitive_upstream_lowers(
        nodes,
        e,
        not_before_start(e.next_event.min(candidate), start_time),
        visited.update(e.id as int, true),
        start_time,
        e.upstream@.len() as nat,
    );
}

impl SchedulingNode {
    /// Computes the transitive next event of node `e`: the earliest tag at
    /// which `e` may have an event, given the candidate tag `candidate` and
    /// the next events of the nodes upstream, each delayed by the
    /// connections it has to pass. `visited` marks the nodes that the
    /// search has been through and cuts it short on cycles.
    pub fn transitive_next_event(
        rti: &RTICommon,
        e: &SchedulingNode,
        candidate: Tag,
        visited: &mut Vec<bool>,
        start_time: Instant,
    ) -> (result: Tag)
        requires
            rti.wf(),
            e.wf(rti.scheduling_nodes.len() as int),
            e.id < rti.scheduling_nodes.len(),
            old(visited)@.len() == rti.scheduling_nodes.len(),
        ensures
            (result, final(visited)@) == transitive_next_event_from(
                rti.scheduling_nodes@,
                *e,
                candidate,
                old(visited)@,
                start_time,
            ),
            covers(final(visited)@, old(visited)@),
        decreases unvisited(old(visited)@),
    {
        let ghost nodes = rti.scheduling_nodes@;
        let ghost visited0 = visited@;
        let id: usize = e.id as usize;
        if visited[id] || e.state == SchedulingNodeState::NotConnected {
            // The node has stopped executing or was visited before: no
            // point in checking the nodes upstream of it.
            return candidate;
        }
        visited[id] = true;
        let ghost marked = visited@;
        proof {
            assert(marked == visited0.update(id as int, true));
            lemma_unvisited_mark(visited0, id as int);
        }
        let mut result = e.next_event;
        // If the candidate is earlier than the next event of this node, use
        // the candidate.
        if Tag::lf_tag_compare(&candidate, &result) < 0 {
            result = candidate;
        }
        // The result cannot be earlier than the start time.
        if result.time < start_time {
            result = Tag::new(start_time, 0);
        }
        let ghost own = result;
        // Check the upstream nodes: any of them might send an event that
        // results in an earlier next event.
        let num_upstream: usize = e.upstream.len();
        let mut i: usize = 0;
        while i < num_upstream
            invariant
                i <= num_upstream,
                num_upstream == e.upstream@.len(),
                rti.wf(),
                nodes == rti.scheduling_nodes@,
                e.wf(nodes.len() as int),
                visited0 == old(visited)@,
                visited@.len() == nodes.len(),
                covers(visited@, marked),
                covers(marked, visited0),
                unvisited(marked) < unvisited(visited0),
                (result, visited@) == transitive_upstream(
                    nodes,
                    *e,
                    own,
                    marked,
                    start_time,
                    i as nat,
                ),
            decreases num_upstream - i,
        {
            let upstream_id: usize = e.upstream[i] as usize;
            let upstream_delay: Interval = e.upstream_delay[i];
            let upstream = &rti.scheduling_nodes[upstream_id];
            let ghost marks = visited@;
            let ghost so_far = result;
            proof {
                lemma_merged(marked, marks);
                lemma_unvisited_covers(marks, marked);
                assert(upstream.wf(nodes.len() as int));
            }
            let mut upstream_result = Self::transitive_next_event(
                rti,
                upstream,
                result,
                visited,
                start_time,
            );
            // Add the delay of the connection.
            upstream_result = Tag::lf_delay_tag(&upstream_result, upstream_delay);
            // If the delayed tag is earlier than the result so far, use it.
            if Tag::lf_tag_compare(&upstream_result, &result) < 0 {
                result = upstream_result;
            }
            proof {
                assert(covers(visited@, marked)) by {
                    assert forall|k: int|
                        0 <= k < marked.len() && marked[k] implies #[trigger] visited@[k] by {
                        assert(marks[k]);
                    }
                }
                assert(transitive_upstream(nodes, *e, own, marked, start_time, i as nat) == (
                    so_far,
                    marks,
                ));
            }
            i = i + 1;
        }
        proof {
            assert(covers(visited@, visited0)) by {
                assert forall|k: int|
                    0 <= k < visited0.len() && visited0[k] implies #[trigger] visited@[k] by {
                    assert(marked[k]);
                }
            }
        }
        let completed = e.completed;
        if Tag::lf_tag_compare(&result, &completed) < 0 {
            result = completed;
        }
        result
    }
}

} // verus!
