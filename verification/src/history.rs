//! Whole runs of a propagation: what holds after any number of steps.
//!
//! Everything here is specification and proof. A history is a run of steps
//! on a registry that nothing else changes between the steps.

use crate::progress::{
    connection_pending, immediately_downstream, is_downstream_path,
    lemma_finished_sweep_is_complete, lemma_step_keeps_sweep_in_order, sweep_in_order,
};
use crate::propagation::{
    grant_dropped, grants_kept, lemma_step_keeps_grants, only_marked, stepped, task_fed, tasks_fit,
    tasks_steady, Action, PropagationState, Task,
};
use crate::decision::{
    assumed_next_event, grants_on_completion, min_upstream_completed, start_tag,
    upstream_completed_bound,
};
use crate::delay_graph::{is_walk, least_delay, on_zero_delay_cycle, walk_delay, walk_end, Vertex};
use crate::min_delays::{cache_updated, caches_valid, listed, zero_delay_cycle_flag};
use crate::rti_common::{same_links, RTICommon, SchedulingNode, SchedulingNodeState};
use crate::tag::{Instant, Interval, Tag, FOREVER, NEVER};
use vstd::prelude::*;

verus! {

/// What went into a step and what came out of it: whether the grant sent
/// before was delivered, and the action that the step returned.
pub struct Move {
    pub delivered: bool,
    pub action: Action,
}

/// Whether the `k`-th state of a history leads to the next by the `k`-th
/// move.
pub open spec fn step_taken(
    states: Seq<PropagationState>,
    moves: Seq<Move>,
    start_time: Instant,
    k: int,
) -> bool {
    stepped(
        &states[k].rti,
        states[k].tasks,
        states[k].visited,
        start_time,
        moves[k].delivered,
        &states[k + 1].rti,
        states[k + 1].tasks,
        states[k + 1].visited,
        moves[k].action,
    )
}

/// Whether `states` and `moves` are a history of a propagation: each state
/// leads to the next by a step.
pub open spec fn is_history(
    states: Seq<PropagationState>,
    moves: Seq<Move>,
    start_time: Instant,
) -> bool {
    &&& states.len() == moves.len() + 1
    &&& forall|k: int| 0 <= k < moves.len() ==> #[trigger] step_taken(states, moves, start_time, k)
}

/// The number of grants that the first `k` moves handed out for sending to
/// node `g`.
pub open spec fn sends_to(moves: Seq<Move>, g: int, k: int) -> nat
    decreases k,
{
    if k <= 0 {
        0
    } else {
        sends_to(moves, g, k - 1) + if moves[k - 1].action is Send && moves[k
            - 1].action->Send_fed_id == g {
            1nat
        } else {
            0nat
        }
    }
}

/// Whether the `j`-th move records the delivery of a grant of `tag` to
/// node `g`.
pub open spec fn delivery_at(
    states: Seq<PropagationState>,
    moves: Seq<Move>,
    g: int,
    tag: Tag,
    provisional: bool,
    j: int,
) -> bool {
    &&& moves[j].delivered
    &&& states[j].tasks.len() > 0
    &&& states[j].tasks.last() == (Task::Delivery { fed: g as u16, tag, provisional })
}

/// Whether a grant of `tag` was delivered to node `g` in the first `k`
/// moves.
pub open spec fn delivered_to(
    states: Seq<PropagationState>,
    moves: Seq<Move>,
    g: int,
    tag: Tag,
    provisional: bool,
    k: int,
) -> bool {
    exists|j: int| 0 <= j < k && #[trigger] delivery_at(states, moves, g, tag, provisional, j)
}

/// What holds after the first `k` moves of any steady propagation. No node
/// has lost a grant, and no completed tag has changed. A last granted tag
/// that is not as at the start is the tag of a grant that was delivered to
/// the node, and so is a last provisionally granted tag, of a provisional
/// grant.
pub open spec fn grants_delivered(
    states: Seq<PropagationState>,
    moves: Seq<Move>,
    k: int,
) -> bool {
    let first = states[0];
    let now = states[k];
    &&& grants_kept(&first.rti, &now.rti)
    &&& forall|g: int|
        0 <= g < first.rti.scheduling_nodes.len() ==> {
            let a = #[trigger] now.rti.scheduling_nodes[g];
            let b = first.rti.scheduling_nodes[g];
            &&& a.last_granted != b.last_granted ==> delivered_to(
                states,
                moves,
                g,
                a.last_granted,
                false,
                k,
            )
            &&& a.last_provisionally_granted != b.last_provisionally_granted ==> delivered_to(
                states,
                moves,
                g,
                a.last_provisionally_granted,
                true,
                k,
            )
        }
}

/// What the proof of `grants_delivered` carries along besides: the state
/// is in order and steady.
pub open spec fn history_in_order(states: Seq<PropagationState>, k: int) -> bool {
    let now = states[k];
    &&& now.rti.wf()
    &&& now.rti.scheduling_nodes.len() == states[0].rti.scheduling_nodes.len()
    &&& tasks_fit(now.tasks, now.visited, now.rti.scheduling_nodes.len() as int)
    &&& tasks_steady(now.tasks, &now.rti)
}

/// Along a steady propagation the granted tags of a node only rise, and
/// they change only by a grant that was delivered to the node, whatever
/// the outcomes of the sending are and however many steps are taken.
pub proof fn lemma_grants_change_by_delivery(
    states: Seq<PropagationState>,
    moves: Seq<Move>,
    start_time: Instant,
    k: int,
)
    requires
        is_history(states, moves, start_time),
        states[0].rti.wf(),
        tasks_fit(states[0].tasks, states[0].visited, states[0].rti.scheduling_nodes.len() as int),
        tasks_steady(states[0].tasks, &states[0].rti),
        0 <= k <= moves.len(),
    ensures
        grants_delivered(states, moves, k),
        history_in_order(states, k),
    decreases k,
{
    if k > 0 {
        lemma_grants_change_by_delivery(states, moves, start_time, k - 1);
        let j = k - 1;
        assert(step_taken(states, moves, start_time, j));
        let before = states[j];
        let after = states[k];
        let n = states[0].rti.scheduling_nodes.len() as int;
        lemma_step_keeps_grants(
            &before.rti,
            before.tasks,
            before.visited,
            start_time,
            moves[j].delivered,
            &after.rti,
            after.tasks,
            after.visited,
            moves[j].action,
        );
        crate::propagation::lemma_step_keeps_state_in_order(
            &before.rti,
            before.tasks,
            before.visited,
            start_time,
            moves[j].delivered,
            &after.rti,
            after.tasks,
            after.visited,
            moves[j].action,
        );
        if before.tasks.len() > 0 {
            assert(task_fed(before.tasks[before.tasks.len() - 1]) < n);
        }
        assert forall|g: int| 0 <= g < n implies {
            let a = #[trigger] after.rti.scheduling_nodes[g];
            let b = states[0].rti.scheduling_nodes[g];
            &&& b.last_granted.le(a.last_granted)
            &&& b.last_provisionally_granted.le(a.last_provisionally_granted)
            &&& a.completed == b.completed
            &&& a.last_granted != b.last_granted ==> delivered_to(
                states,
                moves,
                g,
                a.last_granted,
                false,
                k,
            )
            &&& a.last_provisionally_granted != b.last_provisionally_granted ==> delivered_to(
                states,
                moves,
                g,
                a.last_provisionally_granted,
                true,
                k,
            )
        } by {
            let m = before.rti.scheduling_nodes[g];
            let a = after.rti.scheduling_nodes[g];
            let b = states[0].rti.scheduling_nodes[g];
            assert(same_links(a, m));
            if a.last_granted != b.last_granted {
                if a.last_granted == m.last_granted {
                    let at = choose|at: int|
                        0 <= at < j && #[trigger] delivery_at(
                            states,
                            moves,
                            g,
                            m.last_granted,
                            false,
                            at,
                        );
                    assert(0 <= at < k && delivery_at(states, moves, g, a.last_granted, false, at));
                } else {
                    assert(delivery_at(states, moves, g, a.last_granted, false, j));
                }
            }
            if a.last_provisionally_granted != b.last_provisionally_granted {
                if a.last_provisionally_granted == m.last_provisionally_granted {
                    let at = choose|at: int|
                        0 <= at < j && #[trigger] delivery_at(
                            states,
                            moves,
                            g,
                            m.last_provisionally_granted,
                            true,
                            at,
                        );
                    assert(0 <= at < k && delivery_at(
                        states,
                        moves,
                        g,
                        a.last_provisionally_granted,
                        true,
                        at,
                    ));
                } else {
                    assert(delivery_at(states, moves, g, a.last_provisionally_granted, true, j));
                }
            }
        }
    }
}

/// A step changes a next event tag only from none reported to the start
/// tag: a tag that was reported stays.
pub proof fn lemma_step_keeps_reported_next_events(
    before: &RTICommon,
    tasks: Seq<Task>,
    visited: Seq<bool>,
    start_time: Instant,
    delivered: bool,
    after: &RTICommon,
    tasks2: Seq<Task>,
    visited2: Seq<bool>,
    action: Action,
)
    requires
        stepped(before, tasks, visited, start_time, delivered, after, tasks2, visited2, action),
    ensures
        after.scheduling_nodes.len() == before.scheduling_nodes.len(),
        forall|i: int|
            0 <= i < before.scheduling_nodes.len() ==> (#[trigger] after.scheduling_nodes[i]).next_event
                == before.scheduling_nodes[i].next_event || (before.scheduling_nodes[i].next_event
                == Tag::never() && after.scheduling_nodes[i].next_event == start_tag(start_time)),
{
}

/// Along a propagation, the next event tag that a node has reported
/// stays, and a node that has reported none has none still or the start
/// tag, whatever the outcomes of the sending are and however many steps
/// are taken.
pub proof fn lemma_reported_next_events_stay(
    states: Seq<PropagationState>,
    moves: Seq<Move>,
    start_time: Instant,
    k: int,
)
    requires
        is_history(states, moves, start_time),
        0 <= k <= moves.len(),
    ensures
        states[k].rti.scheduling_nodes.len() == states[0].rti.scheduling_nodes.len(),
        forall|g: int|
            0 <= g < states[0].rti.scheduling_nodes.len() ==> (
            #[trigger] states[k].rti.scheduling_nodes[g]).next_event
                == states[0].rti.scheduling_nodes[g].next_event || (
            states[0].rti.scheduling_nodes[g].next_event == Tag::never()
                && states[k].rti.scheduling_nodes[g].next_event == start_tag(start_time)),
    decreases k,
{
    if k > 0 {
        lemma_reported_next_events_stay(states, moves, start_time, k - 1);
        let j = k - 1;
        assert(step_taken(states, moves, start_time, j));
        lemma_step_keeps_reported_next_events(
            &states[j].rti,
            states[j].tasks,
            states[j].visited,
            start_time,
            moves[j].delivered,
            &states[k].rti,
            states[k].tasks,
            states[k].visited,
            moves[j].action,
        );
        assert forall|g: int| 0 <= g < states[0].rti.scheduling_nodes.len() implies (
        #[trigger] states[k].rti.scheduling_nodes[g]).next_event
            == states[0].rti.scheduling_nodes[g].next_event || (
        states[0].rti.scheduling_nodes[g].next_event == Tag::never()
            && states[k].rti.scheduling_nodes[g].next_event == start_tag(start_time)) by {
            let m = states[j].rti.scheduling_nodes[g];
        }
    }
}

/// Whether every task carries the provisional grant of `tag`: it issues
/// it, has it under way, or carries it on upstream.
pub open spec fn carrying(tasks: Seq<Task>, tag: Tag) -> bool {
    forall|i: int|
        0 <= i < tasks.len() ==> match #[trigger] tasks[i] {
            Task::Issue { tag: t, provisional, .. } => t == tag && provisional,
            Task::Rendezvous { tag: t, provisional, .. } => t == tag && provisional,
            Task::Delivery { tag: t, provisional, .. } => t == tag && provisional,
            Task::Upstream { tag: t, .. } => t == tag,
            _ => false,
        }
}

/// What holds after the first `k` moves of the propagation of a
/// provisional grant of `tag`. The last granted tag of every node is as at
/// the start. The last provisionally granted tag of a node is as at the
/// start, or it is `tag`: then `tag` lay above both tags of the node at
/// the start, and the grant was delivered to the node. And at most one
/// grant was handed out for sending to each node.
pub open spec fn provisional_run(
    states: Seq<PropagationState>,
    moves: Seq<Move>,
    tag: Tag,
    k: int,
) -> bool {
    let first = states[0];
    let now = states[k];
    &&& now.rti.scheduling_nodes.len() == first.rti.scheduling_nodes.len()
    &&& forall|g: int|
        0 <= g < first.rti.scheduling_nodes.len() ==> {
            let a = #[trigger] now.rti.scheduling_nodes[g];
            let b = first.rti.scheduling_nodes[g];
            &&& a.last_granted == b.last_granted
            &&& a.completed == b.completed
            &&& a.last_provisionally_granted == b.last_provisionally_granted || {
                &&& a.last_provisionally_granted == tag
                &&& b.last_provisionally_granted.lt(tag)
                &&& b.last_granted.lt(tag)
                &&& delivered_to(states, moves, g, tag, true, k)
            }
            &&& sends_to(moves, g, k) <= 1
        }
}

/// What the proof of `provisional_run` carries along besides: the state is
/// in order, every task carries the grant, and a node that the grant was
/// handed out for is not open to it any more, unless the outcome of the
/// sending is still awaited.
pub open spec fn provisional_run_in_order(
    states: Seq<PropagationState>,
    moves: Seq<Move>,
    tag: Tag,
    k: int,
) -> bool {
    let now = states[k];
    let n = now.rti.scheduling_nodes.len() as int;
    &&& now.rti.wf()
    &&& tasks_fit(now.tasks, now.visited, n)
    &&& tasks_steady(now.tasks, &now.rti)
    &&& carrying(now.tasks, tag)
    &&& forall|g: int|
        0 <= g < n && sends_to(moves, g, k) >= 1 ==> grant_dropped(
            #[trigger] now.rti.scheduling_nodes[g],
            tag,
        ) || (now.tasks.len() > 0 && now.tasks.last() is Delivery && task_fed(now.tasks.last())
            == g)
}

/// The propagation of a provisional grant changes the last provisionally
/// granted tag of a node only by delivering the grant to it, which raises
/// the tag, and hands out at most one grant for each node, whatever the
/// outcomes of the sending are and however many steps are taken.
pub proof fn lemma_provisional_propagation(
    states: Seq<PropagationState>,
    moves: Seq<Move>,
    start_time: Instant,
    fed: u16,
    tag: Tag,
    k: int,
)
    requires
        is_history(states, moves, start_time),
        states[0].rti.wf(),
        tasks_fit(states[0].tasks, states[0].visited, states[0].rti.scheduling_nodes.len() as int),
        states[0].tasks == seq![Task::Issue { fed, tag, provisional: true }],
        0 <= k <= moves.len(),
    ensures
        provisional_run(states, moves, tag, k),
        provisional_run_in_order(states, moves, tag, k),
    decreases k,
{
    if k > 0 {
        lemma_provisional_propagation(states, moves, start_time, fed, tag, k - 1);
        let j = k - 1;
        assert(step_taken(states, moves, start_time, j));
        let before = states[j];
        let after = states[k];
        let n = before.rti.scheduling_nodes.len() as int;
        let tasks = before.tasks;
        let tasks2 = after.tasks;
        lemma_step_keeps_grants(
            &before.rti,
            tasks,
            before.visited,
            start_time,
            moves[j].delivered,
            &after.rti,
            tasks2,
            after.visited,
            moves[j].action,
        );
        crate::propagation::lemma_step_keeps_state_in_order(
            &before.rti,
            tasks,
            before.visited,
            start_time,
            moves[j].delivered,
            &after.rti,
            tasks2,
            after.visited,
            moves[j].action,
        );
        if tasks.len() > 0 {
            let rest = tasks.drop_last();
            let top = tasks.last();
            assert(tasks[tasks.len() - 1] == top);
            assert(task_fed(tasks[tasks.len() - 1]) < n);
            assert forall|i: int| 0 <= i < rest.len() implies #[trigger] rest[i] == tasks[i] by {}
            assert(carrying(tasks2, tag)) by {
                assert forall|i: int| 0 <= i < tasks2.len() implies match #[trigger] tasks2[i] {
                    Task::Issue { tag: t, provisional, .. } => t == tag && provisional,
                    Task::Rendezvous { tag: t, provisional, .. } => t == tag && provisional,
                    Task::Delivery { tag: t, provisional, .. } => t == tag && provisional,
                    Task::Upstream { tag: t, .. } => t == tag,
                    _ => false,
                } by {
                    if i < rest.len() {
                        assert(tasks2[i] == rest[i]);
                        assert(rest[i] == tasks[i]);
                    }
                }
            }
            assert forall|g: int| 0 <= g < n implies {
                let a = #[trigger] after.rti.scheduling_nodes[g];
                let b = states[0].rti.scheduling_nodes[g];
                &&& a.last_granted == b.last_granted
                &&& a.completed == b.completed
                &&& a.last_provisionally_granted == b.last_provisionally_granted || {
                    &&& a.last_provisionally_granted == tag
                    &&& b.last_provisionally_granted.lt(tag)
                    &&& b.last_granted.lt(tag)
                    &&& delivered_to(states, moves, g, tag, true, k)
                }
                &&& sends_to(moves, g, k) <= 1
                &&& sends_to(moves, g, k) >= 1 ==> grant_dropped(a, tag) || (tasks2.len() > 0
                    && tasks2.last() is Delivery && task_fed(tasks2.last()) == g)
            } by {
                let m = before.rti.scheduling_nodes[g];
                let a = after.rti.scheduling_nodes[g];
                assert(same_links(a, m));
                if delivered_to(states, moves, g, tag, true, j) {
                    let at = choose|at: int|
                        0 <= at < j && #[trigger] delivery_at(states, moves, g, tag, true, at);
                    assert(0 <= at < k && delivery_at(states, moves, g, tag, true, at));
                }
                if top is Delivery && task_fed(top) == g && moves[j].delivered {
                    assert(delivery_at(states, moves, g, tag, true, j));
                }
            }
        }
    } else {
        assert(sends_to(moves, 0, 0) == 0);
        assert(states[0].tasks[0] == (Task::Issue { fed, tag, provisional: true }));
        assert forall|g: int| 0 <= g < states[0].rti.scheduling_nodes.len() implies sends_to(
            moves,
            g,
            0,
        ) == 0 by {}
    }
}

/// The number of the first `k` moves that decided on a grant for node `d`.
pub open spec fn considered(states: Seq<PropagationState>, d: int, k: int) -> nat
    decreases k,
{
    if k <= 0 {
        0
    } else {
        considered(states, d, k - 1) + if states[k - 1].tasks.len() > 0 && states[k
            - 1].tasks.last() == (Task::Consider { fed: d as u16 }) {
            1nat
        } else {
            0nat
        }
    }
}

/// The number of tasks that are still to decide on a grant for node `d`.
pub open spec fn to_consider(tasks: Seq<Task>, d: int) -> nat
    decreases tasks.len(),
{
    if tasks.len() == 0 {
        0
    } else {
        to_consider(tasks.drop_last(), d) + if tasks.last() == (Task::Consider { fed: d as u16 }) {
            1nat
        } else {
            0nat
        }
    }
}

/// Whether node `d` is node `from` or downstream of it: a path of
/// downstream connections leads from `from` to `d`.
pub open spec fn downstream_of(nodes: Seq<SchedulingNode>, from: int, d: int) -> bool {
    exists|path: Seq<int>| #[trigger] is_downstream_path(nodes, from, d, path)
}

/// What holds after the first `k` moves of a sweep downstream of node
/// `fed`. Only `fed` and nodes downstream of it are marked. For each
/// marked node other than `fed`, one decision on a grant was taken or is
/// still to be taken; for each node that is not marked, none was and none
/// is; and for `fed` itself, none but the one that the propagation may
/// start with: the sweep never comes back to it. And when the sweep is
/// over, the marked nodes are `fed` and all nodes downstream of it.
pub open spec fn sweep_run(states: Seq<PropagationState>, fed: int, k: int) -> bool {
    let first = states[0];
    let now = states[k];
    let n = first.rti.scheduling_nodes.len() as int;
    &&& now.visited.len() == n
    &&& forall|d: int|
        0 <= d < n ==> {
            &&& #[trigger] now.visited[d] ==> downstream_of(first.rti.scheduling_nodes@, fed, d)
            &&& considered(states, d, k) + to_consider(now.tasks, d) == if d == fed {
                to_consider(first.tasks, fed)
            } else if now.visited[d] {
                1nat
            } else {
                0nat
            }
        }
    &&& now.tasks.len() == 0 ==> forall|d: int|
        0 <= d < n ==> (#[trigger] now.visited[d] <==> downstream_of(
            first.rti.scheduling_nodes@,
            fed,
            d,
        ))
}

/// What the proof of `sweep_run` carries along besides: the state is in
/// order, the downstream connections are as at the start, no task starts a
/// sweep anew, `fed` is marked, and every node whose downstream connections
/// a task is to follow is marked.
pub open spec fn sweep_run_in_order(states: Seq<PropagationState>, fed: int, k: int) -> bool {
    let first = states[0];
    let now = states[k];
    let n = first.rti.scheduling_nodes.len() as int;
    &&& now.rti.wf()
    &&& now.rti.scheduling_nodes.len() == n
    &&& tasks_fit(now.tasks, now.visited, n)
    &&& sweep_in_order(now.rti.scheduling_nodes@, now.tasks, now.visited)
    &&& now.visited[fed]
    &&& forall|i: int|
        0 <= i < n ==> (#[trigger] now.rti.scheduling_nodes[i]).downstream@
            == first.rti.scheduling_nodes[i].downstream@
    &&& forall|i: int|
        0 <= i < now.tasks.len() ==> !((#[trigger] now.tasks[i]) is Completed) && (now.tasks[i]
            is Downstream ==> now.visited[task_fed(now.tasks[i]) as int])
}

proof fn lemma_to_consider_push(tasks: Seq<Task>, task: Task, d: int)
    ensures
        to_consider(tasks.push(task), d) == to_consider(tasks, d) + if task == (Task::Consider {
            fed: d as u16,
        }) {
            1nat
        } else {
            0nat
        },
{
    assert(tasks.push(task).drop_last() =~= tasks);
}

/// A path along the downstream connections of some nodes is one along the
/// same connections of other nodes.
proof fn lemma_same_downstream_paths(
    a: Seq<SchedulingNode>,
    b: Seq<SchedulingNode>,
    from: int,
    to: int,
    path: Seq<int>,
)
    requires
        a.len() == b.len(),
        forall|i: int| 0 <= i < a.len() ==> (#[trigger] a[i]).downstream@ == b[i].downstream@,
        is_downstream_path(a, from, to, path),
    ensures
        is_downstream_path(b, from, to, path),
{
    assert forall|i: int| 0 <= i < path.len() - 1 implies immediately_downstream(
        b,
        #[trigger] path[i],
        path[i + 1],
    ) by {
        assert(immediately_downstream(a, path[i], path[i + 1]));
        assert(0 <= path[i] < a.len());
        assert(a[path[i]].downstream@ == b[path[i]].downstream@);
        let j = choose|j: int|
            0 <= j < a[path[i]].downstream@.len() && #[trigger] a[path[i]].downstream@[j]
                == path[i + 1];
        assert(b[path[i]].downstream@[j] == path[i + 1]);
    }
}

/// A path that leads to a node leads on to a node immediately downstream
/// of it.
proof fn lemma_path_on(nodes: Seq<SchedulingNode>, from: int, via: int, j: int, path: Seq<int>)
    requires
        is_downstream_path(nodes, from, via, path),
        0 <= j < nodes[via].downstream@.len(),
        0 <= nodes[via].downstream@[j] < nodes.len(),
    ensures
        is_downstream_path(nodes, from, nodes[via].downstream@[j] as int, path.push(
            nodes[via].downstream@[j] as int,
        )),
{
    let to = nodes[via].downstream@[j] as int;
    let longer = path.push(to);
    assert(longer[0] == path[0]);
    assert forall|i: int| 0 <= i < longer.len() implies 0 <= #[trigger] longer[i] < nodes.len() by {
        if i < path.len() {
            assert(longer[i] == path[i]);
        }
    }
    assert forall|i: int| 0 <= i < longer.len() - 1 implies immediately_downstream(
        nodes,
        #[trigger] longer[i],
        longer[i + 1],
    ) by {
        assert(longer[i] == path[i]);
        if i < path.len() - 1 {
            assert(longer[i + 1] == path[i + 1]);
            assert(immediately_downstream(nodes, path[i], path[i + 1]));
        } else {
            assert(longer[i] == via);
            assert(nodes[via].downstream@[j] == to);
        }
    }
}

/// A sweep downstream of a node marks that node and the nodes downstream
/// of it and no others, and decides on a grant once for each marked node
/// but the node itself, whatever the outcomes of the sending are. This
/// holds of a sweep on its own, and of one that follows a decision on the
/// node itself, as after a report of a next event.
pub proof fn lemma_downstream_sweep(
    states: Seq<PropagationState>,
    moves: Seq<Move>,
    start_time: Instant,
    fed: u16,
    k: int,
)
    requires
        is_history(states, moves, start_time),
        states[0].rti.wf(),
        fed < states[0].rti.scheduling_nodes.len(),
        states[0].tasks == seq![Task::Downstream { fed, next: 0 }] || states[0].tasks
            == seq![Task::Downstream { fed, next: 0 }, Task::Consider { fed }],
        states[0].visited == only_marked(states[0].rti.scheduling_nodes.len() as nat, fed as int),
        0 <= k <= moves.len(),
    ensures
        sweep_run(states, fed as int, k),
        sweep_run_in_order(states, fed as int, k),
    decreases k,
{
    let first = states[0];
    let nodes0 = first.rti.scheduling_nodes@;
    let n = nodes0.len() as int;
    let own: Seq<int> = seq![fed as int];
    assert(is_downstream_path(nodes0, fed as int, fed as int, own));
    if k > 0 {
        lemma_downstream_sweep(states, moves, start_time, fed, k - 1);
        let j = k - 1;
        assert(step_taken(states, moves, start_time, j));
        let before = states[j];
        let after = states[k];
        let tasks = before.tasks;
        let tasks2 = after.tasks;
        let visited = before.visited;
        let visited2 = after.visited;
        let nodes = before.rti.scheduling_nodes@;
        crate::propagation::lemma_step_keeps_state_in_order(
            &before.rti,
            tasks,
            visited,
            start_time,
            moves[j].delivered,
            &after.rti,
            tasks2,
            visited2,
            moves[j].action,
        );
        lemma_step_keeps_sweep_in_order(
            &before.rti,
            tasks,
            visited,
            start_time,
            moves[j].delivered,
            &after.rti,
            tasks2,
            visited2,
            moves[j].action,
        );
        assert forall|i: int|
            0 <= i < n implies (#[trigger] after.rti.scheduling_nodes[i]).downstream@
            == first.rti.scheduling_nodes[i].downstream@ by {
            assert(same_links(after.rti.scheduling_nodes[i], before.rti.scheduling_nodes[i]));
        }
        if tasks.len() > 0 {
            let rest = tasks.drop_last();
            let top = tasks.last();
            let at = tasks.len() - 1;
            assert(tasks[at] == top);
            assert(task_fed(tasks[at]) < n);
            assert(!(tasks[at] is Completed));
            let f = task_fed(top) as int;
            assert(before.rti.scheduling_nodes[f].wf(n));
            assert forall|i: int| 0 <= i < rest.len() implies #[trigger] rest[i] == tasks[i] by {}
            lemma_sweep_step(nodes0, fed as int, states, j, rest, top);
        } else {
            assert forall|d: int| 0 <= d < n implies considered(states, d, k) == considered(
                states,
                d,
                j,
            ) by {}
        }
        lemma_sweep_end(states, fed as int, k);
    } else {
        assert(first.tasks[0] == (Task::Downstream { fed, next: 0 }));
        assert forall|d: int| 0 <= d < n && d != fed implies to_consider(first.tasks, d)
            == 0 by {
            let sweep: Seq<Task> = seq![Task::Downstream { fed, next: 0 }];
            assert(sweep.drop_last() =~= Seq::<Task>::empty());
            assert(to_consider(sweep.drop_last(), d) == 0);
            assert(to_consider(sweep, d) == 0);
            if first.tasks.len() == 2 {
                assert(first.tasks.drop_last() =~= sweep);
                assert(first.tasks.last() == (Task::Consider { fed }));
            }
        }
        assert forall|i: int| 0 <= i < first.tasks.len() implies !((#[trigger] first.tasks[i])
            is Completed) && (first.tasks[i] is Downstream ==> first.visited[task_fed(
            first.tasks[i],
        ) as int]) by {
            if i == 0 {
                assert(first.tasks[0] == (Task::Downstream { fed, next: 0 }));
            } else {
                assert(first.tasks[1] == (Task::Consider { fed }));
            }
        }
        assert forall|d: int| 0 <= d < n && #[trigger] first.visited[d] implies downstream_of(
            nodes0,
            fed as int,
            d,
        ) by {
            assert(d == fed);
        }
        assert forall|v: int, c: int|
            0 <= v < n && first.visited[v] && 0 <= c < nodes0[v].downstream@.len() implies first.visited[(
        #[trigger] nodes0[v].downstream@[c]) as int] || connection_pending(first.tasks, v, c) by {
            assert(first.tasks[0] is Downstream);
        }
        lemma_sweep_end(states, fed as int, 0);
    }
}

/// Whether a task issues a grant, has it under way or carries it on
/// upstream.
pub open spec fn grant_task(task: Task) -> bool {
    task is Issue || task is Rendezvous || task is Delivery || task is Upstream
}

/// One step of a sweep, for the marks and the count of decisions.
proof fn lemma_sweep_step(
    nodes0: Seq<SchedulingNode>,
    fed: int,
    states: Seq<PropagationState>,
    j: int,
    rest: Seq<Task>,
    top: Task,
)
    requires
        0 <= j < states.len() - 1,
        states[0].rti.scheduling_nodes@ == nodes0,
        0 <= fed < nodes0.len(),
        sweep_run(states, fed, j),
        sweep_run_in_order(states, fed, j),
        states[j].tasks.len() > 0,
        rest == states[j].tasks.drop_last(),
        top == states[j].tasks.last(),
        states[j + 1].rti.scheduling_nodes.len() == nodes0.len(),
        states[j + 1].visited.len() == nodes0.len(),
        top is Downstream ==> {
            let node = states[j].rti.scheduling_nodes[task_fed(top) as int];
            let next = top->Downstream_next;
            if next >= node.downstream@.len() {
                states[j + 1].tasks == rest && states[j + 1].visited == states[j].visited
            } else {
                let d = node.downstream@[next as int];
                let resumed = rest.push(
                    Task::Downstream { fed: task_fed(top), next: (next + 1) as usize },
                );
                &&& 0 <= d < nodes0.len()
                &&& if states[j].visited[d as int] {
                    states[j + 1].tasks == resumed && states[j + 1].visited == states[j].visited
                } else {
                    &&& states[j + 1].tasks == resumed.push(
                        Task::Downstream { fed: d as u16, next: 0 },
                    ).push(Task::Consider { fed: d as u16 })
                    &&& states[j + 1].visited == states[j].visited.update(d as int, true)
                }
            }
        },
        !(top is Downstream) ==> {
            &&& states[j + 1].visited == states[j].visited
            &&& rest.len() <= states[j + 1].tasks.len() <= rest.len() + 2
            &&& forall|i: int| 0 <= i < rest.len() ==> #[trigger] states[j + 1].tasks[i] == rest[i]
            &&& forall|i: int|
                rest.len() <= i < states[j + 1].tasks.len() ==> grant_task(
                    #[trigger] states[j + 1].tasks[i],
                )
        },
    ensures
        forall|d: int|
            0 <= d < nodes0.len() ==> {
                &&& #[trigger] states[j + 1].visited[d] ==> downstream_of(nodes0, fed, d)
                &&& considered(states, d, j + 1) + to_consider(states[j + 1].tasks, d) == if d
                    == fed {
                    to_consider(states[0].tasks, fed)
                } else if states[j + 1].visited[d] {
                    1nat
                } else {
                    0nat
                }
            },
        states[j + 1].visited[fed],
        forall|i: int|
            0 <= i < states[j + 1].tasks.len() ==> !((#[trigger] states[j + 1].tasks[i])
                is Completed) && (states[j + 1].tasks[i] is Downstream ==> states[j
                + 1].visited[task_fed(states[j + 1].tasks[i]) as int]),
{
    let n = nodes0.len() as int;
    let tasks = states[j].tasks;
    let tasks2 = states[j + 1].tasks;
    let visited = states[j].visited;
    let visited2 = states[j + 1].visited;
    assert(tasks =~= rest.push(top));
    assert forall|i: int| 0 <= i < rest.len() implies #[trigger] rest[i] == tasks[i] by {}
    assert(tasks[tasks.len() - 1] == top);
    assert forall|d: int| 0 <= d < n implies to_consider(tasks, d) == to_consider(rest, d)
        + if top == (Task::Consider { fed: d as u16 }) {
        1nat
    } else {
        0nat
    } by {}
    if top is Downstream {
        let f = task_fed(top) as int;
        let node = states[j].rti.scheduling_nodes[f];
        let next = top->Downstream_next;
        assert(visited[f]);
        if next < node.downstream@.len() {
            let d = node.downstream@[next as int] as int;
            let again = Task::Downstream { fed: task_fed(top), next: (next + 1) as usize };
            let resumed = rest.push(again);
            let deeper = resumed.push(Task::Downstream { fed: d as u16, next: 0 });
            assert forall|c: int| 0 <= c < n implies to_consider(resumed, c) == to_consider(
                rest,
                c,
            ) && to_consider(deeper, c) == to_consider(rest, c) && to_consider(
                deeper.push(Task::Consider { fed: d as u16 }),
                c,
            ) == to_consider(rest, c) + if c == d {
                1nat
            } else {
                0nat
            } by {
                lemma_to_consider_push(rest, again, c);
                lemma_to_consider_push(resumed, Task::Downstream { fed: d as u16, next: 0 }, c);
                lemma_to_consider_push(deeper, Task::Consider { fed: d as u16 }, c);
            }
            if !visited[d] {
                assert(node.downstream@ == nodes0[f].downstream@);
                assert(downstream_of(nodes0, fed, f));
                let path = choose|path: Seq<int>|
                    #[trigger] is_downstream_path(nodes0, fed, f, path);
                lemma_path_on(nodes0, fed, f, next as int, path);
                assert(is_downstream_path(nodes0, fed, d, path.push(d)));
                assert(downstream_of(nodes0, fed, d));
                assert forall|i: int| 0 <= i < tasks2.len() implies !((#[trigger] tasks2[i])
                    is Completed) && (tasks2[i] is Downstream ==> visited2[task_fed(
                    tasks2[i],
                ) as int]) by {
                    if i < rest.len() {
                        assert(tasks2[i] == rest[i]);
                        assert(rest[i] == tasks[i]);
                    }
                }
            } else {
                assert forall|i: int| 0 <= i < tasks2.len() implies !((#[trigger] tasks2[i])
                    is Completed) && (tasks2[i] is Downstream ==> visited2[task_fed(
                    tasks2[i],
                ) as int]) by {
                    if i < rest.len() {
                        assert(tasks2[i] == rest[i]);
                        assert(rest[i] == tasks[i]);
                    }
                }
            }
        } else {
            assert forall|i: int| 0 <= i < tasks2.len() implies !((#[trigger] tasks2[i])
                is Completed) && (tasks2[i] is Downstream ==> visited2[task_fed(
                tasks2[i],
            ) as int]) by {
                assert(tasks2[i] == rest[i]);
                assert(rest[i] == tasks[i]);
            }
        }
    } else {
        assert forall|d: int| 0 <= d < n implies to_consider(tasks2, d) == to_consider(
            rest,
            d,
        ) by {
            if tasks2.len() == rest.len() {
                assert(tasks2 =~= rest);
            } else if tasks2.len() == rest.len() + 1 {
                let x = tasks2[rest.len() as int];
                assert(grant_task(x));
                assert(tasks2 =~= rest.push(x));
                lemma_to_consider_push(rest, x, d);
            } else {
                let x = tasks2[rest.len() as int];
                let y = tasks2[rest.len() as int + 1];
                assert(grant_task(x));
                assert(grant_task(y));
                assert(tasks2 =~= rest.push(x).push(y));
                lemma_to_consider_push(rest, x, d);
                lemma_to_consider_push(rest.push(x), y, d);
            }
        }
        assert forall|i: int| 0 <= i < tasks2.len() implies !((#[trigger] tasks2[i]) is Completed)
            && (tasks2[i] is Downstream ==> visited2[task_fed(tasks2[i]) as int]) by {
            if i < rest.len() {
                assert(tasks2[i] == rest[i]);
                assert(rest[i] == tasks[i]);
            } else {
                assert(grant_task(tasks2[i]));
            }
        }
    }
}

/// When a sweep is over, all nodes downstream are marked.
proof fn lemma_sweep_end(states: Seq<PropagationState>, fed: int, k: int)
    requires
        0 <= k < states.len(),
        0 <= fed < states[0].rti.scheduling_nodes.len(),
        sweep_run_in_order(states, fed, k),
        states[k].visited.len() == states[0].rti.scheduling_nodes.len(),
        forall|d: int|
            0 <= d < states[0].rti.scheduling_nodes.len() && #[trigger] states[k].visited[d]
                ==> downstream_of(states[0].rti.scheduling_nodes@, fed, d),
    ensures
        states[k].tasks.len() == 0 ==> forall|d: int|
            0 <= d < states[0].rti.scheduling_nodes.len() ==> (#[trigger] states[k].visited[d]
                <==> downstream_of(states[0].rti.scheduling_nodes@, fed, d)),
{
    let nodes0 = states[0].rti.scheduling_nodes@;
    let now = states[k];
    let nodes = now.rti.scheduling_nodes@;
    if now.tasks.len() == 0 {
        assert(now.tasks =~= Seq::<Task>::empty());
        assert forall|d: int| 0 <= d < nodes0.len() && downstream_of(
            nodes0,
            fed,
            d,
        ) implies #[trigger] now.visited[d] by {
            let path = choose|path: Seq<int>| #[trigger] is_downstream_path(nodes0, fed, d, path);
            assert forall|i: int| 0 <= i < nodes0.len() implies (#[trigger] nodes0[i]).downstream@
                == nodes[i].downstream@ by {
                assert(now.rti.scheduling_nodes[i].downstream@
                    == states[0].rti.scheduling_nodes[i].downstream@);
            }
            lemma_same_downstream_paths(nodes0, nodes, fed, d, path);
            lemma_finished_sweep_is_complete(nodes, now.visited, fed, d, path);
        }
    }
}

/// Whether no task issues a full grant or has one under way.
pub open spec fn no_full_grant_under_way(tasks: Seq<Task>) -> bool {
    forall|i: int|
        0 <= i < tasks.len() ==> match #[trigger] tasks[i] {
            Task::Issue { provisional, .. } => provisional,
            Task::Rendezvous { provisional, .. } => provisional,
            Task::Delivery { provisional, .. } => provisional,
            _ => true,
        }
}

/// Whether a registry is one of zero-delay cycles at rest: its caches are
/// valid, every node lies on a zero-delay cycle, the completed tags of the
/// upstream nodes let no node advance beyond its last granted tag, and
/// the next event tag of every node, the start tag for a node that has
/// reported none, lies at a time other than `NEVER` and `FOREVER`.
pub open spec fn zero_delay_cycles_at_rest(rti: &RTICommon, start_time: Instant) -> bool {
    &&& rti.wf()
    &&& caches_valid(rti)
    &&& forall|n: int|
        0 <= n < rti.scheduling_nodes.len() ==> #[trigger] node_at_rest(rti, n, start_time)
}

/// Whether node `n` lies on a zero-delay cycle, is not let beyond its last
/// granted tag by the completed tags of its upstream nodes, and has a next
/// event tag, the start tag if it has reported none, at a time other than
/// `NEVER` and `FOREVER`.
pub open spec fn node_at_rest(rti: &RTICommon, n: int, start_time: Instant) -> bool {
    let node = rti.scheduling_nodes[n];
    &&& on_zero_delay_cycle(rti.graph(), n)
    &&& !node.last_granted.lt(upstream_completed_bound(rti, n))
    &&& assumed_next_event(node.next_event, start_time).time != NEVER
    &&& assumed_next_event(node.next_event, start_time).time != FOREVER
}

/// What a step that records no failed delivery leaves alone: the
/// connections, the states and the completed tags of all nodes, and the
/// last granted tag of every node but one that a full grant is delivered
/// to. A next event tag changes only from none reported to the start tag.
proof fn lemma_step_frame(
    before: &RTICommon,
    tasks: Seq<Task>,
    visited: Seq<bool>,
    start_time: Instant,
    delivered: bool,
    after: &RTICommon,
    tasks2: Seq<Task>,
    visited2: Seq<bool>,
    action: Action,
)
    requires
        stepped(before, tasks, visited, start_time, delivered, after, tasks2, visited2, action),
        delivered,
    ensures
        after.scheduling_nodes.len() == before.scheduling_nodes.len(),
        forall|i: int|
            0 <= i < before.scheduling_nodes.len() ==> {
                let b = before.scheduling_nodes[i];
                let a = #[trigger] after.scheduling_nodes[i];
                &&& same_links(a, b)
                &&& a.state == b.state
                &&& a.completed == b.completed
                &&& a.next_event == b.next_event || a.next_event == assumed_next_event(
                    b.next_event,
                    start_time,
                )
                &&& a.last_granted == b.last_granted || (tasks.len() > 0 && tasks.last()
                    is Delivery && !tasks.last()->Delivery_provisional)
            },
{
}

/// The bound of the completed tags of the upstream nodes of a node
/// depends on its upstream connections and on the states and the completed
/// tags of the nodes.
proof fn lemma_same_completed_bound(
    a: Seq<SchedulingNode>,
    b: Seq<SchedulingNode>,
    fed: int,
    j: int,
)
    requires
        a.len() == b.len(),
        0 <= fed < a.len(),
        a[fed].upstream@ == b[fed].upstream@,
        a[fed].upstream_delay@ == b[fed].upstream_delay@,
        0 <= j <= a[fed].upstream@.len(),
        forall|i: int| 0 <= i < a[fed].upstream@.len() ==> 0 <= #[trigger] a[fed].upstream@[i]
            < a.len(),
        forall|i: int|
            0 <= i < a.len() ==> (#[trigger] a[i]).state == b[i].state && a[i].completed
                == b[i].completed,
    ensures
        min_upstream_completed(a, fed, j) == min_upstream_completed(b, fed, j),
    decreases j,
{
    if j > 0 {
        lemma_same_completed_bound(a, b, fed, j - 1);
        let u = a[fed].upstream@[j - 1] as int;
        assert(a[u].state == b[u].state && a[u].completed == b[u].completed);
    }
}

/// What holds after the first `k` moves of a propagation on a registry of
/// zero-delay cycles at rest, with every grant delivered: the registry is
/// still such a one, with the connection graph as at the start, no full
/// grant is issued or under way, and the last granted tag of every node is
/// as at the start.
pub open spec fn no_full_grant_run(
    states: Seq<PropagationState>,
    start_time: Instant,
    k: int,
) -> bool {
    let first = states[0];
    let now = states[k];
    &&& zero_delay_cycles_at_rest(&now.rti, start_time)
    &&& now.rti.scheduling_nodes.len() == first.rti.scheduling_nodes.len()
    &&& now.rti.graph() == first.rti.graph()
    &&& tasks_fit(now.tasks, now.visited, now.rti.scheduling_nodes.len() as int)
    &&& no_full_grant_under_way(now.tasks)
    &&& forall|g: int|
        0 <= g < first.rti.scheduling_nodes.len() ==> (#[trigger] now.rti.scheduling_nodes[g]).last_granted
            == first.rti.scheduling_nodes[g].last_granted
}

/// A step on a registry of zero-delay cycles at rest, after a delivery or
/// none, leaves a registry of zero-delay cycles at rest with the same
/// connection graph and the same last granted tags, if no full grant is
/// under way.
proof fn lemma_cycles_stay_at_rest(
    before: &RTICommon,
    tasks: Seq<Task>,
    visited: Seq<bool>,
    start_time: Instant,
    after: &RTICommon,
    tasks2: Seq<Task>,
    visited2: Seq<bool>,
    action: Action,
)
    requires
        zero_delay_cycles_at_rest(before, start_time),
        tasks_fit(tasks, visited, before.scheduling_nodes.len() as int),
        no_full_grant_under_way(tasks),
        stepped(before, tasks, visited, start_time, true, after, tasks2, visited2, action),
    ensures
        zero_delay_cycles_at_rest(after, start_time),
        after.scheduling_nodes.len() == before.scheduling_nodes.len(),
        after.graph() == before.graph(),
        tasks_fit(tasks2, visited2, after.scheduling_nodes.len() as int),
        forall|g: int|
            0 <= g < before.scheduling_nodes.len() ==> (#[trigger] after.scheduling_nodes[g]).last_granted
                == before.scheduling_nodes[g].last_granted,
{
    let n = before.scheduling_nodes.len() as int;
    crate::propagation::lemma_step_keeps_state_in_order(
        before,
        tasks,
        visited,
        start_time,
        true,
        after,
        tasks2,
        visited2,
        action,
    );
    crate::propagation::lemma_step_keeps_caches_valid(
        before,
        tasks,
        visited,
        start_time,
        true,
        after,
        tasks2,
        visited2,
        action,
    );
    lemma_step_frame(before, tasks, visited, start_time, true, after, tasks2, visited2, action);
    crate::min_delays::lemma_same_graph(before, after);
    if tasks.len() > 0 {
        assert(tasks[tasks.len() - 1] == tasks.last());
    }
    assert forall|g: int| 0 <= g < n implies #[trigger] node_at_rest(after, g, start_time) by {
        let b = before.scheduling_nodes[g];
        let a = after.scheduling_nodes[g];
        assert(node_at_rest(before, g, start_time));
        assert(same_links(a, b));
        assert(b.wf(n));
        lemma_same_completed_bound(
            after.scheduling_nodes@,
            before.scheduling_nodes@,
            g,
            a.upstream@.len() as int,
        );
    }
}

/// A step on a registry of zero-delay cycles at rest puts no full grant
/// under way.
proof fn lemma_cycles_issue_no_full_grant(
    before: &RTICommon,
    tasks: Seq<Task>,
    visited: Seq<bool>,
    start_time: Instant,
    after: &RTICommon,
    tasks2: Seq<Task>,
    visited2: Seq<bool>,
    action: Action,
)
    requires
        zero_delay_cycles_at_rest(before, start_time),
        tasks_fit(tasks, visited, before.scheduling_nodes.len() as int),
        no_full_grant_under_way(tasks),
        stepped(before, tasks, visited, start_time, true, after, tasks2, visited2, action),
    ensures
        no_full_grant_under_way(tasks2),
{
    let n = before.scheduling_nodes.len() as int;
    if tasks.len() > 0 {
        let rest = tasks.drop_last();
        let top = tasks.last();
        assert(tasks[tasks.len() - 1] == top);
        assert(task_fed(tasks[tasks.len() - 1]) < n);
        assert forall|i: int| 0 <= i < rest.len() implies #[trigger] rest[i] == tasks[i] by {}
        if top is Consider {
            let fed = task_fed(top) as int;
            assert(before.scheduling_nodes[fed].wf(n));
            assert(node_at_rest(before, fed, start_time));
            assert(!grants_on_completion(before, fed));
            crate::decision::lemma_zero_delay_cycle_gets_no_full_grant(
                before,
                after,
                fed,
                start_time,
            );
        }
        assert forall|i: int| 0 <= i < tasks2.len() implies match #[trigger] tasks2[i] {
            Task::Issue { provisional, .. } => provisional,
            Task::Rendezvous { provisional, .. } => provisional,
            Task::Delivery { provisional, .. } => provisional,
            _ => true,
        } by {
            if i < rest.len() {
                assert(tasks2[i] == rest[i]);
                assert(rest[i] == tasks[i]);
            }
        }
    }
}

/// Nodes on zero-delay cycles are granted provisionally only. On a
/// registry where every node lies on a zero-delay cycle and the completed
/// tags let no node advance, a propagation that starts with no full grant
/// under way issues none, as long as every grant is delivered: the last
/// granted tag of every node stays as it is, however many steps are taken.
pub proof fn lemma_zero_delay_cycles_get_no_full_grant(
    states: Seq<PropagationState>,
    moves: Seq<Move>,
    start_time: Instant,
    k: int,
)
    requires
        is_history(states, moves, start_time),
        forall|j: int| 0 <= j < moves.len() ==> (#[trigger] moves[j]).delivered,
        zero_delay_cycles_at_rest(&states[0].rti, start_time),
        tasks_fit(states[0].tasks, states[0].visited, states[0].rti.scheduling_nodes.len() as int),
        no_full_grant_under_way(states[0].tasks),
        0 <= k <= moves.len(),
    ensures
        no_full_grant_run(states, start_time, k),
    decreases k,
{
    if k > 0 {
        lemma_zero_delay_cycles_get_no_full_grant(states, moves, start_time, k - 1);
        let j = k - 1;
        assert(step_taken(states, moves, start_time, j));
        assert(moves[j].delivered);
        let before = states[j];
        let after = states[k];
        lemma_cycles_stay_at_rest(
            &before.rti,
            before.tasks,
            before.visited,
            start_time,
            &after.rti,
            after.tasks,
            after.visited,
            moves[j].action,
        );
        lemma_cycles_issue_no_full_grant(
            &before.rti,
            before.tasks,
            before.visited,
            start_time,
            &after.rti,
            after.tasks,
            after.visited,
            moves[j].action,
        );
    }
}

/// Whether node `n` is as at the start of a propagation that delivers
/// full grants only: its connections, its state, its completed tag and its
/// last provisionally granted tag are as in `first`, its zero-delay bit is
/// clear, and its next event tag is as in `first` or the start tag in
/// place of none reported.
pub open spec fn node_kept(
    first: &RTICommon,
    now: &RTICommon,
    start_time: Instant,
    n: int,
) -> bool {
    let b = first.scheduling_nodes[n];
    let a = now.scheduling_nodes[n];
    &&& same_links(a, b)
    &&& a.state == b.state
    &&& a.completed == b.completed
    &&& a.last_provisionally_granted == b.last_provisionally_granted
    &&& !zero_delay_cycle_flag(a.flags)
    &&& a.next_event == b.next_event || a.next_event == assumed_next_event(
        b.next_event,
        start_time,
    )
}

/// Whether a registry is as `first` but for caches, cycle bits, last
/// granted tags, and next event tags taken to be the start tag.
pub open spec fn registry_kept(first: &RTICommon, now: &RTICommon, start_time: Instant) -> bool {
    &&& now.wf()
    &&& now.scheduling_nodes.len() == first.scheduling_nodes.len()
    &&& forall|n: int|
        0 <= n < first.scheduling_nodes.len() ==> #[trigger] node_kept(first, now, start_time, n)
}

/// Whether a registry has no zero-delay cycle and no node flagged for one.
pub open spec fn without_zero_delay_cycles(rti: &RTICommon) -> bool {
    &&& rti.wf()
    &&& forall|n: int|
        0 <= n < rti.scheduling_nodes.len() ==> !(#[trigger] on_zero_delay_cycle(rti.graph(), n))
    &&& forall|n: int|
        0 <= n < rti.scheduling_nodes.len() ==> !zero_delay_cycle_flag(
            (#[trigger] rti.scheduling_nodes[n]).flags,
        )
}

/// Whether every task that issues a grant or has one under way is about a
/// full grant, and no task carries a provisional grant on.
pub open spec fn full_grants_only(tasks: Seq<Task>) -> bool {
    forall|i: int|
        0 <= i < tasks.len() ==> match #[trigger] tasks[i] {
            Task::Issue { provisional, .. } => !provisional,
            Task::Rendezvous { provisional, .. } => !provisional,
            Task::Delivery { provisional, .. } => !provisional,
            Task::Upstream { .. } => false,
            _ => true,
        }
}

/// A step without zero-delay cycles decides on full grants only and keeps
/// the registry as it was at the start.
proof fn lemma_full_grants_step(
    first: &RTICommon,
    before: &RTICommon,
    tasks: Seq<Task>,
    visited: Seq<bool>,
    start_time: Instant,
    after: &RTICommon,
    tasks2: Seq<Task>,
    visited2: Seq<bool>,
    action: Action,
)
    requires
        without_zero_delay_cycles(first),
        registry_kept(first, before, start_time),
        tasks_fit(tasks, visited, before.scheduling_nodes.len() as int),
        full_grants_only(tasks),
        stepped(before, tasks, visited, start_time, true, after, tasks2, visited2, action),
    ensures
        registry_kept(first, after, start_time),
        tasks_fit(tasks2, visited2, after.scheduling_nodes.len() as int),
        full_grants_only(tasks2),
{
    let n = first.scheduling_nodes.len() as int;
    crate::propagation::lemma_step_keeps_state_in_order(
        before,
        tasks,
        visited,
        start_time,
        true,
        after,
        tasks2,
        visited2,
        action,
    );
    lemma_step_frame(before, tasks, visited, start_time, true, after, tasks2, visited2, action);
    assert forall|i: int| 0 <= i < n implies first.scheduling_nodes[i].upstream@
        == (#[trigger] before.scheduling_nodes[i]).upstream@ && first.scheduling_nodes[i].upstream_delay@
        == before.scheduling_nodes[i].upstream_delay@ && first.scheduling_nodes[i].state
        == before.scheduling_nodes[i].state by {
        assert(node_kept(first, before, start_time, i));
    }
    crate::min_delays::lemma_same_graph(first, before);
    crate::min_delays::lemma_graph_wf(before);
    let g = before.graph();
    if tasks.len() > 0 {
        let rest = tasks.drop_last();
        let top = tasks.last();
        assert(tasks[tasks.len() - 1] == top);
        assert(task_fed(tasks[tasks.len() - 1]) < n);
        assert forall|i: int| 0 <= i < rest.len() implies #[trigger] rest[i] == tasks[i] by {}
        if top is Consider {
            let fed = task_fed(top) as int;
            let b = before.scheduling_nodes[fed];
            let a = after.scheduling_nodes[fed];
            assert(node_kept(first, before, start_time, fed));
            assert(b.id == fed);
            assert(!on_zero_delay_cycle(first.graph(), fed));
            lemma_built_flag_is_sound(g, b, a);
        }
        assert forall|i: int| 0 <= i < tasks2.len() implies match #[trigger] tasks2[i] {
            Task::Issue { provisional, .. } => !provisional,
            Task::Rendezvous { provisional, .. } => !provisional,
            Task::Delivery { provisional, .. } => !provisional,
            Task::Upstream { .. } => false,
            _ => true,
        } by {
            if i < rest.len() {
                assert(tasks2[i] == rest[i]);
                assert(rest[i] == tasks[i]);
            }
        }
    }
    assert forall|i: int| 0 <= i < n implies #[trigger] node_kept(first, after, start_time, i) by {
        assert(node_kept(first, before, start_time, i));
        let b = before.scheduling_nodes[i];
        let a = after.scheduling_nodes[i];
        assert(same_links(a, b));
    }
}

/// The zero-delay bit that the build of a cache sets is sound: where the
/// bit was clear before and is set after the cache of a node was brought
/// up to date, the node lies on a zero-delay cycle.
proof fn lemma_built_flag_is_sound(g: Seq<Vertex>, before: SchedulingNode, after: SchedulingNode)
    requires
        g.len() <= u32::MAX,
        !zero_delay_cycle_flag(before.flags),
        before.flags == after.flags || cache_updated(g, before, after),
    ensures
        zero_delay_cycle_flag(after.flags) ==> on_zero_delay_cycle(g, before.id as int),
{
    if zero_delay_cycle_flag(after.flags) {
        let md = after.min_delays@;
        let n = before.id as int;
        assert(listed(md, n));
        let k = choose|k: int| 0 <= k < md.len() && (#[trigger] md[k]).id == n;
        let least = md[k].min_delay;
        crate::min_delays::lemma_cycle_flags_twice(before.flags, least, least);
        assert(least == Tag::zero());
        assert(least_delay(g, n, n, least));
        let w = choose|w: Seq<(int, int)>|
            #[trigger] is_walk(g, n, w) && 1 <= w.len() <= g.len() && walk_end(g, n, w) == n
                && walk_delay(g, w) == least;
        assert(is_walk(g, n, w) && 1 <= w.len() <= u32::MAX && walk_end(g, n, w) == n
            && walk_delay(g, w) == Tag::zero());
    }
}

/// Whether what its upstream nodes have completed lets node `d` advance to
/// the strict delay of `completed`: the node is connected, each of its
/// upstream connections, of which there is one at least, has the delay
/// `delay` and comes from a connected node that has completed
/// `completed`, and the strict delay of `completed` lies above the last
/// granted and the last provisionally granted tag of the node and not
/// below its next event tag, nor below the start tag if it has reported
/// none.
pub open spec fn completion_lets_advance(
    rti: &RTICommon,
    d: int,
    completed: Tag,
    delay: Interval,
    start_time: Instant,
) -> bool {
    let node = rti.scheduling_nodes[d];
    let t = completed.delay_strict(delay);
    &&& 0 <= d < rti.scheduling_nodes.len()
    &&& node.state != SchedulingNodeState::NotConnected
    &&& node.upstream@.len() >= 1
    &&& forall|i: int|
        0 <= i < node.upstream@.len() ==> {
            let upstream = rti.scheduling_nodes[(#[trigger] node.upstream@[i]) as int];
            &&& upstream.state != SchedulingNodeState::NotConnected
            &&& upstream.completed == completed
            &&& node.upstream_delay@[i] == delay
        }
    &&& node.last_granted.lt(t)
    &&& node.last_provisionally_granted.lt(t)
    &&& node.next_event.le(t)
    &&& assumed_next_event(node.next_event, start_time).le(t)
}

/// Whether a task is on the way to granting `t` to node `d`: it is to
/// decide on a grant for `d`, or it issues the full grant of `t` to `d` or
/// has it under way.
pub open spec fn awaits(task: Task, d: int, t: Tag) -> bool {
    ||| task == (Task::Consider { fed: d as u16 })
    ||| task == (Task::Issue { fed: d as u16, tag: t, provisional: false })
    ||| task == (Task::Rendezvous { fed: d as u16, tag: t, provisional: false })
    ||| task == (Task::Delivery { fed: d as u16, tag: t, provisional: false })
}

/// Whether some task is on the way to granting `t` to node `d`.
pub open spec fn grant_awaited(tasks: Seq<Task>, d: int, t: Tag) -> bool {
    exists|j: int| 0 <= j < tasks.len() && #[trigger] awaits(tasks[j], d, t)
}

/// Whether the grants for node `d` among the tasks are in line with a
/// grant of `t`: a grant under way is the grant of `t`, and one to be
/// issued is the grant of `t`, or it is at most `t` while `t` is granted
/// already.
pub open spec fn grants_in_line(tasks: Seq<Task>, last_granted: Tag, d: int, t: Tag) -> bool {
    forall|i: int|
        0 <= i < tasks.len() ==> match #[trigger] tasks[i] {
            Task::Issue { fed, tag, .. } => fed == d ==> tag == t || (last_granted == t && tag.le(t)),
            Task::Rendezvous { fed, tag, .. } => fed == d ==> tag == t,
            Task::Delivery { fed, tag, .. } => fed == d ==> tag == t,
            _ => true,
        }
}

/// One step of a propagation of full grants, for the node that the
/// completed tags let advance: its last granted tag stays or becomes `t`,
/// and a grant of `t` that is awaited is awaited still or delivered.
proof fn lemma_completion_step(
    first: &RTICommon,
    before: &RTICommon,
    tasks: Seq<Task>,
    visited: Seq<bool>,
    start_time: Instant,
    after: &RTICommon,
    tasks2: Seq<Task>,
    visited2: Seq<bool>,
    action: Action,
    d: int,
    completed: Tag,
    delay: Interval,
)
    requires
        registry_kept(first, before, start_time),
        registry_kept(first, after, start_time),
        completion_lets_advance(first, d, completed, delay, start_time),
        tasks_fit(tasks, visited, before.scheduling_nodes.len() as int),
        full_grants_only(tasks),
        grants_in_line(
            tasks,
            before.scheduling_nodes[d].last_granted,
            d,
            completed.delay_strict(delay),
        ),
        before.scheduling_nodes[d].last_granted == first.scheduling_nodes[d].last_granted
            || before.scheduling_nodes[d].last_granted == completed.delay_strict(delay),
        stepped(before, tasks, visited, start_time, true, after, tasks2, visited2, action),
    ensures
        grants_in_line(
            tasks2,
            after.scheduling_nodes[d].last_granted,
            d,
            completed.delay_strict(delay),
        ),
        after.scheduling_nodes[d].last_granted == first.scheduling_nodes[d].last_granted
            || after.scheduling_nodes[d].last_granted == completed.delay_strict(delay),
        grant_awaited(tasks, d, completed.delay_strict(delay))
            || before.scheduling_nodes[d].last_granted == completed.delay_strict(delay)
            ==> grant_awaited(tasks2, d, completed.delay_strict(delay))
            || after.scheduling_nodes[d].last_granted == completed.delay_strict(delay),
{
    let n = first.scheduling_nodes.len() as int;
    let t = completed.delay_strict(delay);
    let node0 = first.scheduling_nodes[d];
    let b = before.scheduling_nodes[d];
    let a = after.scheduling_nodes[d];
    assert(node_kept(first, before, start_time, d));
    assert(node_kept(first, after, start_time, d));
    lemma_step_frame(before, tasks, visited, start_time, true, after, tasks2, visited2, action);
    if tasks.len() > 0 {
        let rest = tasks.drop_last();
        let top = tasks.last();
        let at = tasks.len() - 1;
        assert(tasks[at] == top);
        assert(task_fed(tasks[at]) < n);
        assert forall|i: int| 0 <= i < rest.len() implies #[trigger] rest[i] == tasks[i] by {}
        if top == (Task::Consider { fed: d as u16 }) {
            // The bound of the completed tags is `t` as at the start.
            assert forall|i: int| 0 <= i < b.upstream@.len() implies {
                let upstream = before.scheduling_nodes@[(#[trigger] b.upstream@[i]) as int];
                &&& upstream.state != SchedulingNodeState::NotConnected
                &&& upstream.completed == completed
                &&& before.scheduling_nodes@[d].upstream_delay@[i] == delay
            } by {
                let u = b.upstream@[i] as int;
                assert(before.scheduling_nodes[d].wf(n));
                assert(node0.upstream@[i] == b.upstream@[i]);
                assert(node_kept(first, before, start_time, u));
            }
            crate::decision::lemma_common_completion_bound(
                before.scheduling_nodes@,
                d,
                completed,
                delay,
                b.upstream@.len() as int,
            );
            assert(upstream_completed_bound(before, d) == t);
        }
        assert forall|i: int| 0 <= i < tasks2.len() implies match #[trigger] tasks2[i] {
            Task::Issue { fed, tag, .. } => fed == d ==> tag == t || (a.last_granted == t
                && tag.le(t)),
            Task::Rendezvous { fed, tag, .. } => fed == d ==> tag == t,
            Task::Delivery { fed, tag, .. } => fed == d ==> tag == t,
            _ => true,
        } by {
            if i < rest.len() {
                assert(tasks2[i] == rest[i]);
                assert(rest[i] == tasks[i]);
            }
        }
        if grant_awaited(tasks, d, t) && a.last_granted != t {
            let j = choose|j: int| 0 <= j < tasks.len() && #[trigger] awaits(tasks[j], d, t);
            if j < at {
                assert(tasks2[j] == rest[j]);
                assert(awaits(tasks2[j], d, t));
            } else {
                assert(awaits(top, d, t));
                assert(tasks2.len() > rest.len());
                assert(awaits(tasks2[rest.len() as int], d, t));
            }
        }
    }
}

/// Whether node `d` is the node at the end of one of the first `upto`
/// downstream connections of node `fed`.
pub open spec fn among_downstream(rti: &RTICommon, fed: int, d: int, upto: int) -> bool {
    exists|i: int|
        0 <= i < upto && i < rti.scheduling_nodes[fed].downstream@.len()
            && #[trigger] rti.scheduling_nodes[fed].downstream@[i] == d
}

/// The number of downstream connections of the node that has completed a
/// tag for which the sweep was started: as many as the task at the bottom
/// says, and all `len` of them once no task is left.
pub open spec fn sweeps_started(tasks: Seq<Task>, len: int) -> int {
    if tasks.len() == 0 {
        len
    } else if tasks[0] is Completed {
        tasks[0]->Completed_next as int
    } else {
        0
    }
}

/// What holds after the first `k` moves of the propagation that follows a
/// report of a completed tag by node `fed`, for a node `d` that the
/// completed tags let advance to `t`: the last granted tag of `d` is as at
/// the start or `t`, and it is `t` once the propagation is over, if `d` is
/// immediately downstream of `fed`.
pub open spec fn completion_run(
    states: Seq<PropagationState>,
    fed: int,
    d: int,
    t: Tag,
    k: int,
) -> bool {
    let first = states[0];
    let now = states[k];
    &&& now.rti.scheduling_nodes[d].last_granted == first.rti.scheduling_nodes[d].last_granted
        || now.rti.scheduling_nodes[d].last_granted == t
    &&& now.tasks.len() == 0 && among_downstream(
        &first.rti,
        fed,
        d,
        first.rti.scheduling_nodes[fed].downstream@.len() as int,
    ) ==> now.rti.scheduling_nodes[d].last_granted == t
}

/// What the proof of `completion_run` carries along besides.
pub open spec fn completion_run_in_order(
    states: Seq<PropagationState>,
    start_time: Instant,
    fed: int,
    d: int,
    t: Tag,
    k: int,
) -> bool {
    let first = states[0];
    let now = states[k];
    let len = first.rti.scheduling_nodes[fed].downstream@.len() as int;
    &&& registry_kept(&first.rti, &now.rti, start_time)
    &&& tasks_fit(now.tasks, now.visited, now.rti.scheduling_nodes.len() as int)
    &&& full_grants_only(now.tasks)
    &&& grants_in_line(now.tasks, now.rti.scheduling_nodes[d].last_granted, d, t)
    &&& now.tasks.len() > 0 ==> now.tasks[0] is Completed && task_fed(now.tasks[0]) == fed
    &&& forall|i: int| 1 <= i < now.tasks.len() ==> !((#[trigger] now.tasks[i]) is Completed)
    &&& among_downstream(&first.rti, fed, d, sweeps_started(now.tasks, len)) ==> grant_awaited(
        now.tasks,
        d,
        t,
    ) || now.rti.scheduling_nodes[d].last_granted == t
}

/// A node is granted the strict delay of what its upstream nodes have
/// completed, by the propagation that follows the report. In a registry
/// without zero-delay cycles, after node `fed` has reported a completed
/// tag, let `d` be a node of which every upstream node has completed
/// `completed` over connections with the delay `delay`, and that this lets
/// advance to the strict delay `t` of `completed`. With every grant
/// delivered, the last granted tag of `d` is as at the start or `t` after
/// any number of steps, and it is `t` when the propagation is over, if `d`
/// is immediately downstream of `fed`.
pub proof fn lemma_completion_is_granted(
    states: Seq<PropagationState>,
    moves: Seq<Move>,
    start_time: Instant,
    fed: u16,
    d: int,
    completed: Tag,
    delay: Interval,
    k: int,
)
    requires
        is_history(states, moves, start_time),
        forall|j: int| 0 <= j < moves.len() ==> (#[trigger] moves[j]).delivered,
        without_zero_delay_cycles(&states[0].rti),
        fed < states[0].rti.scheduling_nodes.len(),
        states[0].tasks == seq![Task::Completed { fed, next: 0 }],
        states[0].visited.len() == states[0].rti.scheduling_nodes.len(),
        completion_lets_advance(&states[0].rti, d, completed, delay, start_time),
        0 <= k <= moves.len(),
    ensures
        completion_run(states, fed as int, d, completed.delay_strict(delay), k),
        completion_run_in_order(
            states,
            start_time,
            fed as int,
            d,
            completed.delay_strict(delay),
            k,
        ),
    decreases k,
{
    let first = states[0];
    let t = completed.delay_strict(delay);
    let n = first.rti.scheduling_nodes.len() as int;
    let len = first.rti.scheduling_nodes[fed as int].downstream@.len() as int;
    if k > 0 {
        lemma_completion_is_granted(states, moves, start_time, fed, d, completed, delay, k - 1);
        let j = k - 1;
        assert(step_taken(states, moves, start_time, j));
        assert(moves[j].delivered);
        let before = states[j];
        let after = states[k];
        lemma_full_grants_step(
            &first.rti,
            &before.rti,
            before.tasks,
            before.visited,
            start_time,
            &after.rti,
            after.tasks,
            after.visited,
            moves[j].action,
        );
        lemma_completion_step(
            &first.rti,
            &before.rti,
            before.tasks,
            before.visited,
            start_time,
            &after.rti,
            after.tasks,
            after.visited,
            moves[j].action,
            d,
            completed,
            delay,
        );
        lemma_sweeps_step(
            &first.rti,
            &before.rti,
            before.tasks,
            before.visited,
            start_time,
            &after.rti,
            after.tasks,
            after.visited,
            moves[j].action,
            fed as int,
            d,
            t,
        );
    } else {
        assert(first.tasks[0] == (Task::Completed { fed, next: 0 }));
        assert forall|m: int| 0 <= m < n implies #[trigger] node_kept(
            &first.rti,
            &first.rti,
            start_time,
            m,
        ) by {}
    }
}

/// One step of the propagation after a report of a completed tag, for the
/// sweeps that were started: the task at the bottom stays until it is the
/// last, and a node that a sweep was started for has its grant awaited or
/// delivered.
proof fn lemma_sweeps_step(
    first: &RTICommon,
    before: &RTICommon,
    tasks: Seq<Task>,
    visited: Seq<bool>,
    start_time: Instant,
    after: &RTICommon,
    tasks2: Seq<Task>,
    visited2: Seq<bool>,
    action: Action,
    fed: int,
    d: int,
    t: Tag,
)
    requires
        registry_kept(first, before, start_time),
        0 <= fed < first.scheduling_nodes.len(),
        0 <= d < first.scheduling_nodes.len(),
        tasks_fit(tasks, visited, before.scheduling_nodes.len() as int),
        tasks.len() > 0 ==> tasks[0] is Completed && task_fed(tasks[0]) == fed,
        forall|i: int| 1 <= i < tasks.len() ==> !((#[trigger] tasks[i]) is Completed),
        among_downstream(
            first,
            fed,
            d,
            sweeps_started(tasks, first.scheduling_nodes[fed].downstream@.len() as int),
        ) ==> grant_awaited(tasks, d, t) || before.scheduling_nodes[d].last_granted == t,
        grant_awaited(tasks, d, t) || before.scheduling_nodes[d].last_granted == t
            ==> grant_awaited(tasks2, d, t) || after.scheduling_nodes[d].last_granted == t,
        stepped(before, tasks, visited, start_time, true, after, tasks2, visited2, action),
    ensures
        tasks2.len() > 0 ==> tasks2[0] is Completed && task_fed(tasks2[0]) == fed,
        forall|i: int| 1 <= i < tasks2.len() ==> !((#[trigger] tasks2[i]) is Completed),
        among_downstream(
            first,
            fed,
            d,
            sweeps_started(tasks2, first.scheduling_nodes[fed].downstream@.len() as int),
        ) ==> grant_awaited(tasks2, d, t) || after.scheduling_nodes[d].last_granted == t,
{
    let n = first.scheduling_nodes.len() as int;
    let len = first.scheduling_nodes[fed].downstream@.len() as int;
    assert(node_kept(first, before, start_time, fed));
    if tasks.len() > 0 {
        let rest = tasks.drop_last();
        let top = tasks.last();
        let at = tasks.len() - 1;
        assert(tasks[at] == top);
        assert(task_fed(tasks[at]) < n);
        assert(before.scheduling_nodes[task_fed(top) as int].wf(n));
        assert forall|i: int| 0 <= i < rest.len() implies #[trigger] rest[i] == tasks[i] by {}
        if at == 0 {
            let next = top->Completed_next;
            let node = before.scheduling_nodes[fed];
            assert(node.downstream@ == first.scheduling_nodes[fed].downstream@);
            let started = sweeps_started(tasks2, len);
            if among_downstream(first, fed, d, started) {
                let i = choose|i: int|
                    0 <= i < started && i < first.scheduling_nodes[fed].downstream@.len()
                        && #[trigger] first.scheduling_nodes[fed].downstream@[i] == d;
                if next < len {
                    assert(tasks2[0] == (Task::Completed { fed: fed as u16, next: (next + 1) as usize }));
                    if i < next {
                        assert(among_downstream(first, fed, d, next as int));
                    } else {
                        assert(tasks2[2] == (Task::Consider { fed: d as u16 }));
                        assert(awaits(tasks2[2], d, t));
                    }
                } else {
                    assert(among_downstream(first, fed, d, next as int));
                }
            }
            if next < len {
                assert(
                    tasks2[0] == (Task::Completed { fed: fed as u16, next: (next + 1) as usize })
                );
                assert(tasks2[1] is Downstream);
                assert(tasks2[2] is Consider);
            }
        } else {
            assert(tasks2[0] == rest[0]);
            assert(!(top is Completed));
            assert forall|i: int| 1 <= i < tasks2.len() implies !((#[trigger] tasks2[i])
                is Completed) by {
                if i < rest.len() {
                    assert(tasks2[i] == rest[i]);
                }
            }
        }
    }
}

} // verus!
