//! The grant decision: whether a node may advance to its next event tag,
//! and whether the grant is a full or a provisional one.

use crate::delay_graph::{
    finite, hop_ok, is_walk, least_delay, lemma_walk_delay_shape, lemma_walk_push,
    on_zero_delay_cycle, reaches, walk_delay, walk_end, Vertex,
};
use crate::min_delays::{
    cache_updated, caches_valid, flags_follow_caches, flags_of_cycle, flags_sound,
    is_min_delay_table, lemma_flags_stay_sound,
    lemma_caches_stay_valid, lemma_flags_still_follow, lemma_graph_wf, lemma_same_graph, listed,
    registry_min_delays_updated, zero_delay_cycle_flag,
};
use crate::rti_common::{
    same_cache, same_links, same_tags, MinimumDelay, RTICommon, SchedulingNode,
    SchedulingNodeState, TagAdvanceGrant,
};
use crate::tag::{no_delay, Instant, Interval, Tag, FOREVER, NEVER};
use vstd::prelude::*;

verus! {

/// The tag at the microstep zero of the start time.
pub open spec fn start_tag(start_time: Instant) -> Tag {
    Tag { time: start_time, microstep: 0 }
}

/// The next event tag that a node is taken to have: a node that has
/// reported none can send an event at the start time.
pub open spec fn assumed_next_event(next_event: Tag, start_time: Instant) -> Tag {
    if next_event == Tag::never() {
        start_tag(start_time)
    } else {
        next_event
    }
}

/// The earliest tag of a message from the nodes of the first `k` entries
/// of a table of minimum delays: the least sum of the next event tag of a
/// node and of its minimum delay, or `FOREVER` for no entry.
pub open spec fn earliest_incoming(
    nodes: Seq<SchedulingNode>,
    md: Seq<MinimumDelay>,
    start_time: Instant,
    k: int,
) -> Tag
    decreases k,
{
    if k <= 0 {
        Tag::forever()
    } else {
        earliest_incoming(nodes, md, start_time, k - 1).min(
            Tag::sum(
                assumed_next_event(nodes[md[k - 1].id as int].next_event, start_time),
                md[k - 1].min_delay,
            ),
        )
    }
}

/// The earliest future incoming message tag of node `fed`, from its cached
/// table of minimum delays.
pub open spec fn earliest_incoming_message_tag(
    rti: &RTICommon,
    fed: int,
    start_time: Instant,
) -> Tag {
    earliest_incoming(
        rti.scheduling_nodes@,
        rti.scheduling_nodes[fed].min_delays@,
        start_time,
        rti.scheduling_nodes[fed].min_delays@.len() as int,
    )
}

/// The least strict delay of the completed tags of the connected nodes
/// among the first `j` upstream connections of node `fed`, or `FOREVER` if
/// there is none.
pub open spec fn min_upstream_completed(nodes: Seq<SchedulingNode>, fed: int, j: int) -> Tag
    decreases j,
{
    if j <= 0 {
        Tag::forever()
    } else {
        let rest = min_upstream_completed(nodes, fed, j - 1);
        let upstream = nodes[nodes[fed].upstream[j - 1] as int];
        if upstream.state == SchedulingNodeState::NotConnected {
            rest
        } else {
            rest.min(upstream.completed.delay_strict(nodes[fed].upstream_delay[j - 1]))
        }
    }
}

/// The bound that the completed tags of the upstream nodes put on the
/// messages still to come to node `fed`.
pub open spec fn upstream_completed_bound(rti: &RTICommon, fed: int) -> Tag {
    min_upstream_completed(
        rti.scheduling_nodes@,
        fed,
        rti.scheduling_nodes[fed].upstream@.len() as int,
    )
}

/// Whether the completed tags of the upstream nodes alone let node `fed`
/// advance: their bound lies above the last granted tag and not below the
/// next event tag.
pub open spec fn grants_on_completion(rti: &RTICommon, fed: int) -> bool {
    let bound = upstream_completed_bound(rti, fed);
    let node = rti.scheduling_nodes[fed];
    node.last_granted.lt(bound) && node.next_event.le(bound)
}

/// The decision for a node whose earliest incoming message tag is `t_d`.
/// A `t_d` above the next event tag grants that tag, unless the grant is
/// redundant. A `t_d` equal to it grants it provisionally to a node on a
/// zero-delay cycle, unless the grant is redundant. Nothing is granted
/// otherwise.
pub open spec fn grant_decision(
    node: SchedulingNode,
    t_d: Tag,
    on_zero_delay_cycle: bool,
) -> TagAdvanceGrant {
    if node.next_event.lt(t_d) && node.last_provisionally_granted.le(t_d) && node.last_granted.lt(
        t_d,
    ) {
        TagAdvanceGrant { tag: node.next_event, is_provisional: false }
    } else if t_d == node.next_event && on_zero_delay_cycle && node.last_provisionally_granted.lt(
        t_d,
    ) && node.last_granted.lt(t_d) {
        TagAdvanceGrant { tag: node.next_event, is_provisional: true }
    } else {
        TagAdvanceGrant { tag: Tag::never(), is_provisional: false }
    }
}

/// What a registry is after the earliest incoming message tag of node
/// `fed` was computed: the cache and the flags of `fed` are up to date,
/// each node listed in the cache that had reported no next event has the
/// start tag as its next event, and everything else is as before.
pub open spec fn incoming_computed(
    before: &RTICommon,
    after: &RTICommon,
    fed: int,
    start_time: Instant,
) -> bool {
    &&& after.wf()
    &&& after.same_frame(before)
    &&& after.graph() == before.graph()
    &&& forall|i: int|
        0 <= i < before.scheduling_nodes.len() ==> {
            let b = before.scheduling_nodes[i];
            let a = #[trigger] after.scheduling_nodes[i];
            &&& same_links(a, b)
            &&& a.state == b.state
            &&& a.completed == b.completed
            &&& a.last_granted == b.last_granted
            &&& a.last_provisionally_granted == b.last_provisionally_granted
            &&& a.next_event == if listed(after.scheduling_nodes[fed].min_delays@, i) {
                assumed_next_event(b.next_event, start_time)
            } else {
                b.next_event
            }
            &&& i != fed ==> same_cache(a, b) && a.flags == b.flags
        }
    &&& cache_updated(before.graph(), before.scheduling_nodes[fed], after.scheduling_nodes[fed])
}

/// What a registry is after a decision on node `fed`: untouched where the
/// completed tags of the upstream nodes decide, and as the computation of
/// the earliest incoming message tag leaves it otherwise.
pub open spec fn decision_made(
    before: &RTICommon,
    after: &RTICommon,
    fed: int,
    start_time: Instant,
) -> bool {
    if grants_on_completion(before, fed) {
        after.same_as(before)
    } else {
        incoming_computed(before, after, fed, start_time)
    }
}

/// The decision on node `fed`, read off the registry as the decision
/// leaves it.
pub open spec fn decision_of(
    before: &RTICommon,
    after: &RTICommon,
    fed: int,
    start_time: Instant,
) -> TagAdvanceGrant {
    if grants_on_completion(before, fed) {
        TagAdvanceGrant { tag: upstream_completed_bound(before, fed), is_provisional: false }
    } else {
        grant_decision(
            after.scheduling_nodes[fed],
            earliest_incoming_message_tag(after, fed, start_time),
            zero_delay_cycle_flag(after.scheduling_nodes[fed].flags),
        )
    }
}

/// The earliest incoming tag depends on the table and on the next event
/// tags that the nodes of the table are taken to have.
proof fn lemma_earliest_incoming_same(
    a: Seq<SchedulingNode>,
    b: Seq<SchedulingNode>,
    md_a: Seq<MinimumDelay>,
    md_b: Seq<MinimumDelay>,
    start_time: Instant,
    k: int,
)
    requires
        0 <= k <= md_a.len(),
        md_a == md_b,
        forall|l: int|
            0 <= l < k ==> assumed_next_event(
                a[(#[trigger] md_a[l]).id as int].next_event,
                start_time,
            ) == assumed_next_event(b[md_a[l].id as int].next_event, start_time),
    ensures
        earliest_incoming(a, md_a, start_time, k) == earliest_incoming(b, md_b, start_time, k),
    decreases k,
{
    if k > 0 {
        lemma_earliest_incoming_same(a, b, md_a, md_b, start_time, k - 1);
        assert(assumed_next_event(a[md_a[k - 1].id as int].next_event, start_time)
            == assumed_next_event(b[md_a[k - 1].id as int].next_event, start_time));
    }
}

/// The earliest incoming tag is at most each of the sums it is taken over,
/// and is one of them unless it is `FOREVER`.
pub proof fn lemma_earliest_incoming_is_least(
    nodes: Seq<SchedulingNode>,
    md: Seq<MinimumDelay>,
    start_time: Instant,
    k: int,
)
    requires
        0 <= k <= md.len(),
    ensures
        forall|l: int|
            0 <= l < k ==> earliest_incoming(nodes, md, start_time, k).le(
                Tag::sum(
                    assumed_next_event(nodes[(#[trigger] md[l]).id as int].next_event, start_time),
                    md[l].min_delay,
                ),
            ),
        earliest_incoming(nodes, md, start_time, k) == Tag::forever() || exists|l: int|
            0 <= l < k && earliest_incoming(nodes, md, start_time, k) == Tag::sum(
                assumed_next_event(nodes[(#[trigger] md[l]).id as int].next_event, start_time),
                md[l].min_delay,
            ),
    decreases k,
{
    if k > 0 {
        lemma_earliest_incoming_is_least(nodes, md, start_time, k - 1);
        let rest = earliest_incoming(nodes, md, start_time, k - 1);
        let last = Tag::sum(
            assumed_next_event(nodes[md[k - 1].id as int].next_event, start_time),
            md[k - 1].min_delay,
        );
        let all = earliest_incoming(nodes, md, start_time, k);
        assert(all == rest.min(last));
        if all != Tag::forever() {
            if all == last {
                assert(0 <= k - 1 < k && all == Tag::sum(
                    assumed_next_event(nodes[md[k - 1].id as int].next_event, start_time),
                    md[k - 1].min_delay,
                ));
            } else {
                let l = choose|l: int|
                    0 <= l < k - 1 && rest == Tag::sum(
                        assumed_next_event(
                            nodes[(#[trigger] md[l]).id as int].next_event,
                            start_time,
                        ),
                        md[l].min_delay,
                    );
                assert(0 <= l < k && all == Tag::sum(
                    assumed_next_event(nodes[md[l].id as int].next_event, start_time),
                    md[l].min_delay,
                ));
            }
        }
    }
}

/// Bringing the cache of `fed` up to date once more, after its earliest
/// incoming message tag was computed, changes nothing.
proof fn lemma_update_after_incoming(
    before: &RTICommon,
    middle: &RTICommon,
    after: &RTICommon,
    fed: int,
    start_time: Instant,
)
    requires
        before.wf(),
        0 <= fed < before.scheduling_nodes.len(),
        incoming_computed(before, middle, fed, start_time),
        registry_min_delays_updated(middle, after, fed),
    ensures
        incoming_computed(before, after, fed, start_time),
        earliest_incoming_message_tag(after, fed, start_time) == earliest_incoming_message_tag(
            middle,
            fed,
            start_time,
        ),
        after.scheduling_nodes[fed].flags == middle.scheduling_nodes[fed].flags,
        same_tags(after.scheduling_nodes[fed], middle.scheduling_nodes[fed]),
{
    lemma_graph_wf(before);
    lemma_graph_wf(middle);
    let g = before.graph();
    let b = before.scheduling_nodes[fed];
    let m = middle.scheduling_nodes[fed];
    let a = after.scheduling_nodes[fed];
    assert(b.id == fed);
    assert(m.id == fed);
    assert(m.wf(middle.scheduling_nodes.len() as int));
    assert(a.wf(after.scheduling_nodes.len() as int));
    if m.num_min_delays == 0 {
        assert(m.min_delays@.len() == 0);
        assert(b.num_min_delays == 0);
        assert(is_min_delay_table(g, fed, a.min_delays@));
        if a.min_delays@.len() > 0 {
            let u = a.min_delays@[0].id as int;
            assert(listed(a.min_delays@, u));
            assert(reaches(g, fed, u));
            assert(listed(m.min_delays@, u));
        }
        assert(a.min_delays@ =~= m.min_delays@);
        assert(!listed(a.min_delays@, fed));
        assert(!listed(m.min_delays@, fed));
    }
    assert(a.min_delays@ == m.min_delays@);
    lemma_earliest_incoming_same(
        after.scheduling_nodes@,
        middle.scheduling_nodes@,
        a.min_delays@,
        m.min_delays@,
        start_time,
        a.min_delays@.len() as int,
    );
}

impl SchedulingNode {
    /// Computes the earliest future incoming message tag of node `fed_id`:
    /// the earliest tag at which a message from a transitive upstream node
    /// can still arrive. The cache of minimum delays of the node is brought
    /// up to date first. An upstream node that has reported no next event
    /// is taken to send at the start time, and is recorded so.
    pub fn earliest_future_incoming_message_tag(
        rti: &mut RTICommon,
        fed_id: u16,
        start_time: Instant,
    ) -> (t_d: Tag)
        requires
            old(rti).wf(),
            fed_id < old(rti).scheduling_nodes.len(),
        ensures
            incoming_computed(old(rti), final(rti), fed_id as int, start_time),
            t_d == earliest_incoming_message_tag(final(rti), fed_id as int, start_time),
            caches_valid(old(rti)) ==> caches_valid(final(rti)),
            flags_follow_caches(old(rti)) ==> flags_follow_caches(final(rti)),
            flags_sound(old(rti)) ==> flags_sound(final(rti)),
    {
        let ghost before = *rti;
        // Update the shortest paths, if necessary.
        Self::update_min_delays_upstream(rti, fed_id);
        let ghost updated = *rti;
        let fed: usize = fed_id as usize;
        let ghost md = rti.scheduling_nodes[fed as int].min_delays@;
        let ghost nodes0 = rti.scheduling_nodes@;
        assert(rti.scheduling_nodes[fed as int].wf(rti.scheduling_nodes.len() as int));
        let num_min_delays: usize = rti.scheduling_nodes[fed].min_delays.len();
        let mut t_d = Tag::forever_tag();
        let mut i: usize = 0;
        while i < num_min_delays
            invariant
                i <= num_min_delays,
                num_min_delays == md.len(),
                fed == fed_id,
                fed < rti.scheduling_nodes.len(),
                updated.wf(),
                nodes0 == updated.scheduling_nodes@,
                rti.same_frame(&updated),
                rti.scheduling_nodes[fed as int].min_delays@ == md,
                forall|k: int| 0 <= k < md.len() ==> 0 <= (#[trigger] md[k]).id < nodes0.len(),
                forall|j: int|
                    0 <= j < nodes0.len() ==> {
                        let b = nodes0[j];
                        let a = #[trigger] rti.scheduling_nodes[j];
                        &&& same_links(a, b)
                        &&& same_cache(a, b)
                        &&& a.flags == b.flags
                        &&& a.state == b.state
                        &&& a.completed == b.completed
                        &&& a.last_granted == b.last_granted
                        &&& a.last_provisionally_granted == b.last_provisionally_granted
                        &&& a.next_event == b.next_event || a.next_event == assumed_next_event(
                            b.next_event,
                            start_time,
                        )
                        &&& a.next_event == if listed(md.take(i as int), j) {
                            assumed_next_event(b.next_event, start_time)
                        } else {
                            b.next_event
                        }
                    },
                t_d == earliest_incoming(nodes0, md, start_time, i as int),
            decreases num_min_delays - i,
        {
            let upstream_id: usize = rti.scheduling_nodes[fed].min_delays[i].id as usize;
            let min_delay: Tag = rti.scheduling_nodes[fed].min_delays[i].min_delay;
            assert(md[i as int].id == upstream_id);
            let ghost nodes1 = rti.scheduling_nodes@;
            // A node that has not been heard from can send an event at the
            // start time.
            let mut upstream_next_event = rti.scheduling_nodes[upstream_id].next_event;
            if Tag::lf_tag_compare(&upstream_next_event, &Tag::never_tag()) == 0 {
                upstream_next_event = Tag::new(start_time, 0);
                rti.scheduling_nodes[upstream_id].next_event = upstream_next_event;
            }
            let earliest_tag_from_upstream = Tag::lf_tag_add(&upstream_next_event, &min_delay);
            if Tag::lf_tag_compare(&earliest_tag_from_upstream, &t_d) < 0 {
                t_d = earliest_tag_from_upstream;
            }
            proof {
                let taken = md.take(i as int);
                let taken1 = md.take(i as int + 1);
                assert(taken1[i as int] == md[i as int]);
                assert forall|j: int| 0 <= j < nodes0.len() implies (listed(taken1, j) <==> listed(
                    taken,
                    j,
                ) || j == upstream_id) by {
                    if listed(taken, j) {
                        let k = choose|k: int|
                            0 <= k < taken.len() && (#[trigger] taken[k]).id == j;
                        assert(taken1[k].id == j);
                    }
                    if listed(taken1, j) {
                        let k = choose|k: int|
                            0 <= k < taken1.len() && (#[trigger] taken1[k]).id == j;
                        if k < i {
                            assert(taken[k].id == j);
                        }
                    }
                }
            }
            i = i + 1;
        }
        proof {
            assert(md.take(i as int) =~= md);
            lemma_graph_wf(&before);
            lemma_graph_wf(&updated);
            assert(rti.graph() =~= updated.graph());
            assert forall|j: int| 0 <= j < rti.scheduling_nodes.len() implies (
            #[trigger] rti.scheduling_nodes[j]).wf(rti.scheduling_nodes.len() as int)
                && rti.scheduling_nodes[j].id == j by {
                assert(updated.scheduling_nodes[j].wf(updated.scheduling_nodes.len() as int));
            }
            assert forall|l: int| 0 <= l < md.len() implies assumed_next_event(
                rti.scheduling_nodes@[(#[trigger] md[l]).id as int].next_event,
                start_time,
            ) == assumed_next_event(nodes0[md[l].id as int].next_event, start_time) by {
                let j = md[l].id as int;
                assert(listed(md, j));
            }
            lemma_earliest_incoming_same(
                rti.scheduling_nodes@,
                nodes0,
                md,
                md,
                start_time,
                md.len() as int,
            );
            if caches_valid(&before) {
                lemma_decision_keeps_caches_valid(&before, rti, fed_id as int, start_time);
            }
            if flags_follow_caches(&before) {
                lemma_decision_keeps_flags(&before, rti, fed_id as int, start_time);
            }
            if flags_sound(&before) {
                lemma_decision_keeps_flags_sound(&before, rti, fed_id as int, start_time);
            }
        }
        t_d
    }

    /// Decides what node `fed_id` can be granted. The fast path looks at the
    /// completed tags of the connected upstream nodes only: where the least
    /// of their strict delays lies above the last granted tag and not below
    /// the next event tag, that bound is granted. Otherwise the decision
    /// rests on the earliest incoming message tag.
    pub fn tag_advance_grant_if_safe(
        rti: &mut RTICommon,
        fed_id: u16,
        start_time: Instant,
    ) -> (result: TagAdvanceGrant)
        requires
            old(rti).wf(),
            fed_id < old(rti).scheduling_nodes.len(),
        ensures
            decision_made(old(rti), final(rti), fed_id as int, start_time),
            result == decision_of(old(rti), final(rti), fed_id as int, start_time),
            result.is_provisional ==> zero_delay_cycle_flag(
                final(rti).scheduling_nodes[fed_id as int].flags,
            ),
            caches_valid(old(rti)) ==> caches_valid(final(rti)),
            flags_follow_caches(old(rti)) ==> flags_follow_caches(final(rti)),
            flags_sound(old(rti)) ==> flags_sound(final(rti)),
    {
        let ghost before = *rti;
        let mut result = TagAdvanceGrant::new(Tag::never_tag(), false);
        let fed: usize = fed_id as usize;
        assert(rti.scheduling_nodes[fed as int].wf(rti.scheduling_nodes.len() as int));
        // Find the earliest completed tag of the upstream nodes.
        let mut min_upstream_completed = Tag::forever_tag();
        let num_upstream: usize = rti.scheduling_nodes[fed].upstream.len();
        let mut j: usize = 0;
        while j < num_upstream
            invariant
                j <= num_upstream,
                *rti == before,
                fed < rti.scheduling_nodes.len(),
                rti.scheduling_nodes[fed as int].wf(rti.scheduling_nodes.len() as int),
                num_upstream == rti.scheduling_nodes[fed as int].upstream.len(),
                min_upstream_completed == self::min_upstream_completed(
                    rti.scheduling_nodes@,
                    fed as int,
                    j as int,
                ),
            decreases num_upstream - j,
        {
            let delay: Interval = rti.scheduling_nodes[fed].upstream_delay[j];
            let upstream_id: usize = rti.scheduling_nodes[fed].upstream[j] as usize;
            let upstream = &rti.scheduling_nodes[upstream_id];
            // A node that is no longer connected puts up no bound.
            if upstream.state != SchedulingNodeState::NotConnected {
                // Adjust by the delay of the connection.
                let candidate = Tag::lf_delay_strict(&upstream.completed, delay);
                if Tag::lf_tag_compare(&candidate, &min_upstream_completed) < 0 {
                    min_upstream_completed = candidate;
                }
            }
            j = j + 1;
        }
        if Tag::lf_tag_compare(&min_upstream_completed, &rti.scheduling_nodes[fed].last_granted)
            > 0 && Tag::lf_tag_compare(
            &min_upstream_completed,
            &rti.scheduling_nodes[fed].next_event,
        ) >= 0 {
            result.set_tag(min_upstream_completed);
            proof {
                if caches_valid(&before) {
                    lemma_decision_keeps_caches_valid(&before, rti, fed_id as int, start_time);
                }
                if flags_follow_caches(&before) {
                    lemma_decision_keeps_flags(&before, rti, fed_id as int, start_time);
                }
                if flags_sound(&before) {
                    lemma_decision_keeps_flags_sound(&before, rti, fed_id as int, start_time);
                }
            }
            return result;
        }
        // No progress on the completed tags alone: find the tag of the
        // earliest event that may still come from an upstream node.

        let t_d = Self::earliest_future_incoming_message_tag(rti, fed_id, start_time);
        let ghost middle = *rti;
        let next_event = rti.scheduling_nodes[fed].next_event;
        let last_provisionally_granted = rti.scheduling_nodes[fed].last_provisionally_granted;
        let last_granted = rti.scheduling_nodes[fed].last_granted;
        if Tag::lf_tag_compare(&t_d, &next_event) > 0 && Tag::lf_tag_compare(
            &t_d,
            &last_provisionally_granted,
        ) >= 0 && Tag::lf_tag_compare(&t_d, &last_granted) > 0 {
            // No upstream node can send an event with a tag at or below
            // the next event tag of the node: a TAG is safe.
            result.set_tag(next_event);
        } else if Tag::lf_tag_compare(&t_d, &next_event) == 0 {
            let in_zero_delay_cycle = Self::is_in_zero_delay_cycle(rti, fed_id);
            proof {
                lemma_update_after_incoming(&before, &middle, rti, fed_id as int, start_time);
            }
            if in_zero_delay_cycle && Tag::lf_tag_compare(&t_d, &last_provisionally_granted) > 0
                && Tag::lf_tag_compare(&t_d, &last_granted) > 0 {
                // Some upstream node may send an event with the tag of the
                // next event of the node: only a PTAG is safe.
                result.set_tag(next_event);
                result.set_provisional(true);
            }
        }
        proof {
            if caches_valid(&before) {
                lemma_decision_keeps_caches_valid(&before, rti, fed_id as int, start_time);
            }
            if flags_follow_caches(&before) {
                lemma_decision_keeps_flags(&before, rti, fed_id as int, start_time);
            }
            if flags_sound(&before) {
                lemma_decision_keeps_flags_sound(&before, rti, fed_id as int, start_time);
            }
        }
        result
    }
}

/// A provisional grant is decided only for a node on a zero-delay cycle.
pub proof fn lemma_provisional_grant_needs_zero_delay_cycle(
    node: SchedulingNode,
    t_d: Tag,
    on_zero_delay_cycle: bool,
)
    ensures
        grant_decision(node, t_d, on_zero_delay_cycle).is_provisional ==> on_zero_delay_cycle,
        grant_decision(node, t_d, on_zero_delay_cycle).is_provisional ==> t_d == node.next_event,
        grant_decision(node, t_d, on_zero_delay_cycle).tag == node.next_event || grant_decision(
            node,
            t_d,
            on_zero_delay_cycle,
        ).tag == Tag::never(),
{
}

/// The bound of the completed tags is at most the strict delay of the
/// completed tag of each connected upstream node, and is one of them unless
/// it is `FOREVER`.
pub proof fn lemma_min_upstream_completed_is_least(nodes: Seq<SchedulingNode>, fed: int, j: int)
    requires
        0 <= j <= nodes[fed].upstream@.len(),
    ensures
        forall|i: int|
            0 <= i < j && nodes[(#[trigger] nodes[fed].upstream@[i]) as int].state
                != SchedulingNodeState::NotConnected ==> min_upstream_completed(nodes, fed, j).le(
                nodes[nodes[fed].upstream@[i] as int].completed.delay_strict(
                    nodes[fed].upstream_delay@[i],
                ),
            ),
        min_upstream_completed(nodes, fed, j) == Tag::forever() || exists|i: int|
            0 <= i < j && nodes[(#[trigger] nodes[fed].upstream@[i]) as int].state
                != SchedulingNodeState::NotConnected && min_upstream_completed(nodes, fed, j)
                == nodes[nodes[fed].upstream@[i] as int].completed.delay_strict(
                nodes[fed].upstream_delay@[i],
            ),
    decreases j,
{
    if j > 0 {
        lemma_min_upstream_completed_is_least(nodes, fed, j - 1);
        let rest = min_upstream_completed(nodes, fed, j - 1);
        let all = min_upstream_completed(nodes, fed, j);
        let upstream = nodes[nodes[fed].upstream@[j - 1] as int];
        let last = upstream.completed.delay_strict(nodes[fed].upstream_delay@[j - 1]);
        if all != Tag::forever() {
            if upstream.state != SchedulingNodeState::NotConnected && all == last {
                assert(0 <= j - 1 < j && nodes[nodes[fed].upstream@[j - 1] as int].state
                    != SchedulingNodeState::NotConnected && all == nodes[nodes[fed].upstream@[j
                    - 1] as int].completed.delay_strict(nodes[fed].upstream_delay@[j - 1]));
            } else {
                assert(all == rest);
                let i = choose|i: int|
                    0 <= i < j - 1 && nodes[(#[trigger] nodes[fed].upstream@[i]) as int].state
                        != SchedulingNodeState::NotConnected && rest
                        == nodes[nodes[fed].upstream@[i] as int].completed.delay_strict(
                        nodes[fed].upstream_delay@[i],
                    );
                assert(0 <= i < j && nodes[nodes[fed].upstream@[i] as int].state
                    != SchedulingNodeState::NotConnected && all
                    == nodes[nodes[fed].upstream@[i] as int].completed.delay_strict(
                    nodes[fed].upstream_delay@[i],
                ));
            }
        }
    }
}

/// A decision is safe. A grant on the completed tags of the upstream nodes
/// is not above the strict delay of the completed tag of any connected
/// upstream node. A grant on the earliest incoming message tag lies below
/// the tag of every message that a node of the cache can still send, and a
/// provisional grant does not lie above it.
pub proof fn lemma_decision_is_safe(
    before: &RTICommon,
    after: &RTICommon,
    fed: int,
    start_time: Instant,
)
    requires
        before.wf(),
        0 <= fed < before.scheduling_nodes.len(),
        decision_made(before, after, fed, start_time),
        decision_of(before, after, fed, start_time).tag != Tag::never(),
    ensures
        grants_on_completion(before, fed) ==> forall|i: int|
            #![trigger before.scheduling_nodes[fed].upstream@[i]]
            0 <= i < before.scheduling_nodes[fed].upstream@.len() ==> {
                let node = before.scheduling_nodes[fed];
                let upstream = before.scheduling_nodes[node.upstream@[i] as int];
                upstream.state != SchedulingNodeState::NotConnected ==> decision_of(
                    before,
                    after,
                    fed,
                    start_time,
                ).tag.le(upstream.completed.delay_strict(node.upstream_delay@[i]))
            },
        !grants_on_completion(before, fed) ==> forall|k: int|
            0 <= k < after.scheduling_nodes[fed].min_delays@.len() ==> {
                let grant = decision_of(before, after, fed, start_time);
                let entry = #[trigger] after.scheduling_nodes[fed].min_delays@[k];
                let incoming = Tag::sum(
                    assumed_next_event(
                        after.scheduling_nodes[entry.id as int].next_event,
                        start_time,
                    ),
                    entry.min_delay,
                );
                if grant.is_provisional {
                    grant.tag.le(incoming)
                } else {
                    grant.tag.lt(incoming)
                }
            },
{
    if grants_on_completion(before, fed) {
        lemma_min_upstream_completed_is_least(
            before.scheduling_nodes@,
            fed,
            before.scheduling_nodes[fed].upstream@.len() as int,
        );
    } else {
        lemma_earliest_incoming_is_least(
            after.scheduling_nodes@,
            after.scheduling_nodes[fed].min_delays@,
            start_time,
            after.scheduling_nodes[fed].min_delays@.len() as int,
        );
    }
}

/// With valid caches, a grant on the earliest incoming message tag lies
/// below the tag of every message that any node transitively upstream can
/// still send: below the sum of the next event tag that the node is taken
/// to have and the least delay from it. A provisional grant does not lie
/// above that tag.
pub proof fn lemma_grant_precedes_upstream_messages(
    before: &RTICommon,
    after: &RTICommon,
    fed: int,
    start_time: Instant,
    u: int,
)
    requires
        before.wf(),
        caches_valid(before),
        0 <= fed < before.scheduling_nodes.len(),
        0 <= u < before.scheduling_nodes.len(),
        decision_made(before, after, fed, start_time),
        !grants_on_completion(before, fed),
        decision_of(before, after, fed, start_time).tag != Tag::never(),
        reaches(before.graph(), fed, u),
    ensures
        exists|least: Tag|
            {
                let grant = decision_of(before, after, fed, start_time);
                let incoming = Tag::sum(
                    assumed_next_event(after.scheduling_nodes[u].next_event, start_time),
                    least,
                );
                &&& #[trigger] least_delay(before.graph(), fed, u, least)
                &&& if grant.is_provisional {
                    grant.tag.le(incoming)
                } else {
                    grant.tag.lt(incoming)
                }
            },
{
    lemma_graph_wf(before);
    lemma_decision_is_safe(before, after, fed, start_time);
    let g = before.graph();
    let md = after.scheduling_nodes[fed].min_delays@;
    assert(before.scheduling_nodes[fed].id == fed);
    assert(before.scheduling_nodes[fed].wf(before.scheduling_nodes.len() as int));
    assert(is_min_delay_table(g, fed, md));
    assert(listed(md, u));
    let k = choose|k: int| 0 <= k < md.len() && (#[trigger] md[k]).id == u;
    assert(least_delay(g, fed, u, md[k].min_delay));
}

/// A node gets no full grant at a next event tag that it has in common
/// with a node immediately upstream over a connection without delay: a
/// message with that very tag may still come. With valid caches, where the
/// completed tags of the upstream nodes do not decide, the decision on a
/// connected node is then a provisional grant or none. This is stated for
/// a common tag at a time other than `NEVER` and `FOREVER`.
pub proof fn lemma_equal_next_event_gives_no_full_grant(
    before: &RTICommon,
    after: &RTICommon,
    fed: int,
    start_time: Instant,
    j: int,
)
    requires
        before.wf(),
        caches_valid(before),
        0 <= fed < before.scheduling_nodes.len(),
        decision_made(before, after, fed, start_time),
        !grants_on_completion(before, fed),
        before.scheduling_nodes[fed].state != SchedulingNodeState::NotConnected,
        0 <= j < before.scheduling_nodes[fed].upstream@.len(),
        no_delay(before.scheduling_nodes[fed].upstream_delay@[j]),
        before.scheduling_nodes[before.scheduling_nodes[fed].upstream@[j] as int].next_event
            == before.scheduling_nodes[fed].next_event,
        before.scheduling_nodes[fed].next_event.time != NEVER,
        before.scheduling_nodes[fed].next_event.time != FOREVER,
    ensures
        decision_of(before, after, fed, start_time).is_provisional || decision_of(
            before,
            after,
            fed,
            start_time,
        ).tag == Tag::never(),
        decision_of(before, after, fed, start_time).is_provisional ==> zero_delay_cycle_flag(
            after.scheduling_nodes[fed].flags,
        ),
{
    lemma_graph_wf(before);
    let g = before.graph();
    let node = before.scheduling_nodes[fed];
    let u = node.upstream@[j] as int;
    let md = after.scheduling_nodes[fed].min_delays@;
    assert(node.id == fed);
    assert(node.wf(before.scheduling_nodes.len() as int));
    assert(g[fed] == node.vertex());
    // The connection itself is a walk without delay.
    let hop: Seq<(int, int)> = seq![(fed, j)];
    assert(hop.drop_last() =~= Seq::<(int, int)>::empty());
    assert(is_walk(g, fed, hop.drop_last()));
    assert(hop_ok(g, hop.last()));
    assert(is_walk(g, fed, hop));
    assert(walk_delay(g, hop.drop_last()) == Tag::zero());
    assert(walk_delay(g, hop) == Tag::zero());
    assert(walk_end(g, fed, hop) == u);
    assert(reaches(g, fed, u));
    assert(is_min_delay_table(g, fed, md));
    assert(listed(md, u));
    let k = choose|k: int| 0 <= k < md.len() && (#[trigger] md[k]).id == u;
    let least = md[k].min_delay;
    assert(least_delay(g, fed, u, least));
    assert(least.le(walk_delay(g, hop)));
    let witness = choose|w: Seq<(int, int)>|
        #[trigger] is_walk(g, fed, w) && 1 <= w.len() <= g.len() && walk_end(g, fed, w) == u
            && walk_delay(g, w) == least;
    lemma_walk_delay_shape(g, fed, witness);
    assert(least == Tag::zero());
    lemma_earliest_incoming_is_least(after.scheduling_nodes@, md, start_time, md.len() as int);
    assert(earliest_incoming_message_tag(after, fed, start_time).le(
        Tag::sum(
            assumed_next_event(after.scheduling_nodes@[md[k].id as int].next_event, start_time),
            md[k].min_delay,
        ),
    ));
}

/// A walk from one of two vertices that have each other as their only
/// upstream vertex ends at one of the two.
proof fn lemma_walk_between_two(g: Seq<Vertex>, a: int, b: int, w: Seq<(int, int)>)
    requires
        0 <= a < g.len(),
        0 <= b < g.len(),
        g[a].upstream.len() == 1,
        g[a].upstream[0] == b,
        g[b].upstream.len() == 1,
        g[b].upstream[0] == a,
        is_walk(g, a, w),
    ensures
        walk_end(g, a, w) == a || walk_end(g, a, w) == b,
    decreases w.len(),
{
    if w.len() > 0 {
        lemma_walk_between_two(g, a, b, w.drop_last());
    }
}

/// Two connected nodes that have each other as their only upstream node,
/// over connections without delay, and that have the same next event tag,
/// are granted that tag provisionally. The decision on one of them, where
/// the completed tags do not decide, finds the node on a zero-delay cycle
/// and grants the common tag provisionally if the tag lies above the last
/// granted and the last provisionally granted tag of the node, and grants
/// nothing if it does not. This holds where the cache of the node is built
/// by the decision, and where it was built before, is valid, and has the
/// flags follow it. It is stated for a common tag at a time other than
/// `NEVER` and `FOREVER`.
pub proof fn lemma_mutual_upstream_without_delay_grants_provisionally(
    before: &RTICommon,
    after: &RTICommon,
    fed: int,
    other: int,
    start_time: Instant,
)
    requires
        before.wf(),
        0 <= fed < before.scheduling_nodes.len(),
        0 <= other < before.scheduling_nodes.len(),
        decision_made(before, after, fed, start_time),
        !grants_on_completion(before, fed),
        before.scheduling_nodes[fed].num_min_delays == 0 || (caches_valid(before)
            && flags_follow_caches(before)),
        before.scheduling_nodes[fed].state != SchedulingNodeState::NotConnected,
        before.scheduling_nodes[other].state != SchedulingNodeState::NotConnected,
        before.scheduling_nodes[fed].upstream@ == seq![other as i32],
        before.scheduling_nodes[other].upstream@ == seq![fed as i32],
        no_delay(before.scheduling_nodes[fed].upstream_delay@[0]),
        no_delay(before.scheduling_nodes[other].upstream_delay@[0]),
        before.scheduling_nodes[other].next_event == before.scheduling_nodes[fed].next_event,
        before.scheduling_nodes[fed].next_event.time != NEVER,
        before.scheduling_nodes[fed].next_event.time != FOREVER,
    ensures
        zero_delay_cycle_flag(after.scheduling_nodes[fed].flags),
        decision_of(before, after, fed, start_time) == if before.scheduling_nodes[fed].last_granted.lt(
            before.scheduling_nodes[fed].next_event,
        ) && before.scheduling_nodes[fed].last_provisionally_granted.lt(
            before.scheduling_nodes[fed].next_event,
        ) {
            TagAdvanceGrant { tag: before.scheduling_nodes[fed].next_event, is_provisional: true }
        } else {
            TagAdvanceGrant { tag: Tag::never(), is_provisional: false }
        },
{
    lemma_graph_wf(before);
    let g = before.graph();
    let node = before.scheduling_nodes[fed];
    let peer = before.scheduling_nodes[other];
    let t = node.next_event;
    let md = after.scheduling_nodes[fed].min_delays@;
    let n = before.scheduling_nodes.len() as int;
    assert(node.id == fed);
    assert(node.wf(n));
    assert(peer.wf(n));
    assert(g[fed] == node.vertex());
    assert(g[other] == peer.vertex());
    assert(node.upstream@[0] == other);
    assert(peer.upstream@[0] == fed);
    // There and back is a walk without delay.
    let there: Seq<(int, int)> = seq![(fed, 0int)];
    assert(there.drop_last() =~= Seq::<(int, int)>::empty());
    assert(is_walk(g, fed, there.drop_last()));
    assert(hop_ok(g, there.last()));
    assert(is_walk(g, fed, there));
    assert(walk_delay(g, there.drop_last()) == Tag::zero());
    assert(walk_delay(g, there) == Tag::zero());
    assert(walk_end(g, fed, there) == other);
    let back = there.push((other, 0int));
    lemma_walk_push(g, fed, there, (other, 0int));
    assert(walk_end(g, fed, back) == fed);
    assert(walk_delay(g, back) == Tag::zero());
    assert(reaches(g, fed, fed));
    assert(is_min_delay_table(g, fed, md));
    // The node is on a zero-delay cycle.
    assert(listed(md, fed));
    let own = choose|k: int| 0 <= k < md.len() && (#[trigger] md[k]).id == fed;
    assert(least_delay(g, fed, fed, md[own].min_delay));
    assert(md[own].min_delay.le(walk_delay(g, back)));
    let round = choose|w: Seq<(int, int)>|
        #[trigger] is_walk(g, fed, w) && 1 <= w.len() <= g.len() && walk_end(g, fed, w) == fed
            && walk_delay(g, w) == md[own].min_delay;
    lemma_walk_delay_shape(g, fed, round);
    assert(md[own].min_delay == Tag::zero());
    let flags = node.flags;
    if node.num_min_delays == 0 {
        assert(((flags | 2) | 1) & 1 != 0) by (bit_vector);
        assert(after.scheduling_nodes[fed].flags == crate::min_delays::cycle_flags(
            flags,
            md[own].min_delay,
        ));
    } else {
        assert(node.min_delays@[own].id == fed);
        assert(flags_of_cycle(node.flags, node.min_delays@[own].min_delay));
    }
    // The earliest incoming message tag is the common tag.
    lemma_earliest_incoming_is_least(after.scheduling_nodes@, md, start_time, md.len() as int);
    let t_d = earliest_incoming_message_tag(after, fed, start_time);
    assert(is_walk(g, fed, there) && 1 <= there.len() && walk_end(g, fed, there) == other
        && finite(walk_delay(g, there)));
    assert(reaches(g, fed, other));
    assert(listed(md, other));
    let at = choose|k: int| 0 <= k < md.len() && (#[trigger] md[k]).id == other;
    assert(least_delay(g, fed, other, md[at].min_delay));
    assert(md[at].min_delay.le(walk_delay(g, there)));
    let across = choose|w: Seq<(int, int)>|
        #[trigger] is_walk(g, fed, w) && 1 <= w.len() <= g.len() && walk_end(g, fed, w) == other
            && walk_delay(g, w) == md[at].min_delay;
    lemma_walk_delay_shape(g, fed, across);
    assert(md[at].min_delay == Tag::zero());
    assert(t_d.le(
        Tag::sum(
            assumed_next_event(after.scheduling_nodes@[md[at].id as int].next_event, start_time),
            md[at].min_delay,
        ),
    ));
    assert(t_d.le(t));
    assert(t_d != Tag::forever());
    let from = choose|l: int|
        0 <= l < md.len() && t_d == Tag::sum(
            assumed_next_event(
                after.scheduling_nodes@[(#[trigger] md[l]).id as int].next_event,
                start_time,
            ),
            md[l].min_delay,
        );
    let u = md[from].id as int;
    assert(listed(md, u));
    assert(reaches(g, fed, u));
    let to_u = choose|w: Seq<(int, int)>|
        #[trigger] is_walk(g, fed, w) && 1 <= w.len() && walk_end(g, fed, w) == u && finite(
            walk_delay(g, w),
        );
    lemma_walk_between_two(g, fed, other, to_u);
    assert(least_delay(g, fed, u, md[from].min_delay));
    let of_u = choose|w: Seq<(int, int)>|
        #[trigger] is_walk(g, fed, w) && 1 <= w.len() <= g.len() && walk_end(g, fed, w) == u
            && walk_delay(g, w) == md[from].min_delay;
    lemma_walk_delay_shape(g, fed, of_u);
    assert(t.le(t_d));
    assert(t_d == t);
}

/// Where every upstream connection of a node has the delay `delay` and
/// comes from a connected node with the completed tag `completed`, the
/// bound of the completed tags after at least one connection is the strict
/// delay of `completed`.
pub proof fn lemma_common_completion_bound(
    nodes: Seq<SchedulingNode>,
    fed: int,
    completed: Tag,
    delay: Interval,
    j: int,
)
    requires
        1 <= j <= nodes[fed].upstream@.len(),
        forall|i: int|
            0 <= i < nodes[fed].upstream@.len() ==> {
                let upstream = nodes[(#[trigger] nodes[fed].upstream@[i]) as int];
                &&& upstream.state != SchedulingNodeState::NotConnected
                &&& upstream.completed == completed
                &&& nodes[fed].upstream_delay@[i] == delay
            },
    ensures
        min_upstream_completed(nodes, fed, j) == completed.delay_strict(delay),
    decreases j,
{
    let i = j - 1;
    let upstream = nodes[nodes[fed].upstream@[i] as int];
    assert(upstream.completed == completed && nodes[fed].upstream_delay@[i] == delay);
    if j > 1 {
        lemma_common_completion_bound(nodes, fed, completed, delay, j - 1);
    } else {
        assert(min_upstream_completed(nodes, fed, 0) == Tag::forever());
    }
}

/// A node is granted the strict delay of what all its upstream nodes have
/// completed. Where every upstream connection of a node, of which there is
/// one at least, has the same delay and comes from a connected node, and
/// all those nodes have completed the same tag, the decision grants the
/// strict delay of that tag and leaves the registry alone, if that tag
/// lies above the last granted tag of the node and not below its next
/// event tag. Over connections with a delay of one microstep, a tag
/// completed at microstep `m` so grants the same time at microstep `m + 1`.
pub proof fn lemma_common_completion_grants_its_strict_delay(
    before: &RTICommon,
    after: &RTICommon,
    fed: int,
    start_time: Instant,
    completed: Tag,
    delay: Interval,
)
    requires
        before.wf(),
        0 <= fed < before.scheduling_nodes.len(),
        decision_made(before, after, fed, start_time),
        before.scheduling_nodes[fed].upstream@.len() >= 1,
        forall|i: int|
            0 <= i < before.scheduling_nodes[fed].upstream@.len() ==> {
                let upstream = before.scheduling_nodes[(
                #[trigger] before.scheduling_nodes[fed].upstream@[i]) as int];
                &&& upstream.state != SchedulingNodeState::NotConnected
                &&& upstream.completed == completed
                &&& before.scheduling_nodes[fed].upstream_delay@[i] == delay
            },
        before.scheduling_nodes[fed].last_granted.lt(completed.delay_strict(delay)),
        before.scheduling_nodes[fed].next_event.le(completed.delay_strict(delay)),
    ensures
        decision_of(before, after, fed, start_time) == (TagAdvanceGrant {
            tag: completed.delay_strict(delay),
            is_provisional: false,
        }),
        after.same_as(before),
        delay == Some(0i64) && completed.time != NEVER && completed.time != FOREVER
            && completed.microstep < u32::MAX ==> completed.delay_strict(delay) == (Tag {
            time: completed.time,
            microstep: (completed.microstep + 1) as u32,
        }),
{
    lemma_common_completion_bound(
        before.scheduling_nodes@,
        fed,
        completed,
        delay,
        before.scheduling_nodes[fed].upstream@.len() as int,
    );
}

/// Computing an earliest incoming message tag, and so deciding on a grant,
/// keeps sound flags sound.
pub proof fn lemma_decision_keeps_flags_sound(
    before: &RTICommon,
    after: &RTICommon,
    fed: int,
    start_time: Instant,
)
    requires
        before.wf(),
        0 <= fed < before.scheduling_nodes.len(),
        flags_sound(before),
        incoming_computed(before, after, fed, start_time) || decision_made(
            before,
            after,
            fed,
            start_time,
        ),
    ensures
        flags_sound(after),
{
    assert(before.scheduling_nodes[fed].id == after.scheduling_nodes[fed].id);
    if !incoming_computed(before, after, fed, start_time) {
        lemma_same_graph(before, after);
    }
    lemma_flags_stay_sound(before, after);
}

/// Computing an earliest incoming message tag, and so deciding on a grant,
/// keeps the flags following the caches.
pub proof fn lemma_decision_keeps_flags(
    before: &RTICommon,
    after: &RTICommon,
    fed: int,
    start_time: Instant,
)
    requires
        before.wf(),
        0 <= fed < before.scheduling_nodes.len(),
        flags_follow_caches(before),
        incoming_computed(before, after, fed, start_time) || decision_made(
            before,
            after,
            fed,
            start_time,
        ),
    ensures
        flags_follow_caches(after),
{
    assert(before.scheduling_nodes[fed].id == after.scheduling_nodes[fed].id);
    lemma_flags_still_follow(before, after);
}

/// A node on a zero-delay cycle gets no full grant by its earliest
/// incoming message tag: a message with the tag of its next event may
/// still come around the cycle. With a cache that is valid or built by the
/// decision, where the completed tags of the upstream nodes do not decide,
/// the decision is a provisional grant or none. This is stated for a next
/// event tag, the start tag for a node that has reported none, at a time
/// other than `NEVER` and `FOREVER`.
pub proof fn lemma_zero_delay_cycle_gets_no_full_grant(
    before: &RTICommon,
    after: &RTICommon,
    fed: int,
    start_time: Instant,
)
    requires
        before.wf(),
        0 <= fed < before.scheduling_nodes.len(),
        before.scheduling_nodes[fed].num_min_delays == 0 || caches_valid(before),
        decision_made(before, after, fed, start_time),
        !grants_on_completion(before, fed),
        on_zero_delay_cycle(before.graph(), fed),
        assumed_next_event(before.scheduling_nodes[fed].next_event, start_time).time != NEVER,
        assumed_next_event(before.scheduling_nodes[fed].next_event, start_time).time != FOREVER,
    ensures
        decision_of(before, after, fed, start_time).is_provisional || decision_of(
            before,
            after,
            fed,
            start_time,
        ).tag == Tag::never(),
{
    lemma_graph_wf(before);
    let g = before.graph();
    let node = before.scheduling_nodes[fed];
    let md = after.scheduling_nodes[fed].min_delays@;
    assert(node.id == fed);
    assert(node.wf(before.scheduling_nodes.len() as int));
    let cycle = choose|w: Seq<(int, int)>|
        #[trigger] is_walk(g, fed, w) && 1 <= w.len() <= u32::MAX && walk_end(g, fed, w) == fed
            && walk_delay(g, w) == Tag::zero();
    assert(is_walk(g, fed, cycle) && 1 <= cycle.len() && walk_end(g, fed, cycle) == fed
        && finite(walk_delay(g, cycle)));
    assert(reaches(g, fed, fed));
    assert(is_min_delay_table(g, fed, md));
    assert(listed(md, fed));
    let own = choose|k: int| 0 <= k < md.len() && (#[trigger] md[k]).id == fed;
    assert(least_delay(g, fed, fed, md[own].min_delay));
    assert(md[own].min_delay.le(walk_delay(g, cycle)));
    let round = choose|w: Seq<(int, int)>|
        #[trigger] is_walk(g, fed, w) && 1 <= w.len() <= g.len() && walk_end(g, fed, w) == fed
            && walk_delay(g, w) == md[own].min_delay;
    lemma_walk_delay_shape(g, fed, round);
    assert(md[own].min_delay == Tag::zero());
    lemma_earliest_incoming_is_least(after.scheduling_nodes@, md, start_time, md.len() as int);
    assert(earliest_incoming_message_tag(after, fed, start_time).le(
        Tag::sum(
            assumed_next_event(after.scheduling_nodes@[md[own].id as int].next_event, start_time),
            md[own].min_delay,
        ),
    ));
}

/// Computing an earliest incoming message tag, and so deciding on a grant,
/// keeps valid caches valid.
pub proof fn lemma_decision_keeps_caches_valid(
    before: &RTICommon,
    after: &RTICommon,
    fed: int,
    start_time: Instant,
)
    requires
        before.wf(),
        0 <= fed < before.scheduling_nodes.len(),
        caches_valid(before),
        incoming_computed(before, after, fed, start_time) || decision_made(
            before,
            after,
            fed,
            start_time,
        ),
    ensures
        caches_valid(after),
{
    if incoming_computed(before, after, fed, start_time) {
        lemma_caches_stay_valid(before, after);
    } else {
        lemma_same_graph(before, after);
        lemma_caches_stay_valid(before, after);
    }
}

} // verus!
