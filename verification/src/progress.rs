//! What a propagation achieves. It comes to an end: there is a budget of
//! steps that each step uses up. And its sweeps are complete: when it is
//! over, every node downstream of a marked node is marked.
//!
//! Everything here is specification and proof. The budget holds of a
//! propagation whose registry nothing else changes between the steps.

use crate::propagation::{
    grant_dropped, remaining, stepped, task_fed, tasks_fit, tasks_steady, tasks_sweeps, Action,
    Task,
};
use crate::rti_common::{same_links, RTICommon, SchedulingNode};
use crate::tag::{Instant, Tag};
use crate::transitive::{lemma_unvisited_mark, unvisited};
use vstd::prelude::*;

verus! {

/// The number of nodes that a grant of `tag` would not be dropped for.
pub open spec fn open_nodes(nodes: Seq<SchedulingNode>, tag: Tag) -> nat
    decreases nodes.len(),
{
    if nodes.len() == 0 {
        0
    } else {
        open_nodes(nodes.drop_last(), tag) + if grant_dropped(nodes.last(), tag) {
            0nat
        } else {
            1nat
        }
    }
}

/// The greatest number of upstream connections that a node has.
pub open spec fn max_upstream(nodes: Seq<SchedulingNode>) -> nat
    decreases nodes.len(),
{
    if nodes.len() == 0 {
        0
    } else {
        let rest = max_upstream(nodes.drop_last());
        if nodes.last().upstream@.len() > rest {
            nodes.last().upstream@.len()
        } else {
            rest
        }
    }
}

/// The steps that it takes at most to carry a grant on over `k` upstream
/// connections, where issuing it to one node takes at most `c` steps.
pub open spec fn sweep_cost(k: nat, c: nat) -> nat
    decreases k,
{
    if k == 0 {
        1
    } else {
        sweep_cost((k - 1) as nat, c) + 1 + c
    }
}

/// The steps that it takes at most to issue a grant that `p` nodes are
/// open to, where no node has more than `d` upstream connections: the
/// grant is dropped in one step unless its node is open to it, and a node
/// that it was issued to is open to it no more.
pub open spec fn issue_cost(p: nat, d: nat) -> nat
    decreases p,
{
    if p == 0 {
        1
    } else {
        3 + sweep_cost(d, issue_cost((p - 1) as nat, d))
    }
}

/// The steps that a task can take at most, sweeps downstream left aside.
pub open spec fn task_budget(task: Task, nodes: Seq<SchedulingNode>) -> nat {
    let d = max_upstream(nodes);
    match task {
        Task::Consider { .. } => 1 + issue_cost(nodes.len(), d),
        Task::Issue { tag, .. } => issue_cost(open_nodes(nodes, tag), d),
        Task::Rendezvous { tag, .. } => {
            let p = open_nodes(nodes, tag);
            if p == 0 {
                1
            } else {
                2 + sweep_cost(d, issue_cost((p - 1) as nat, d))
            }
        },
        Task::Delivery { tag, .. } => {
            let p = open_nodes(nodes, tag);
            if p == 0 {
                0
            } else {
                1 + sweep_cost(d, issue_cost((p - 1) as nat, d))
            }
        },
        Task::Upstream { fed, tag, next } => sweep_cost(
            remaining(nodes[fed as int].upstream@.len(), next),
            issue_cost(open_nodes(nodes, tag), d),
        ),
        Task::Downstream { fed, next } => remaining(nodes[fed as int].downstream@.len(), next) + 1,
        Task::Completed { .. } => 0,
    }
}

/// The budgets of all tasks together.
pub open spec fn tasks_budget(tasks: Seq<Task>, nodes: Seq<SchedulingNode>) -> nat
    decreases tasks.len(),
{
    if tasks.len() == 0 {
        0
    } else {
        tasks_budget(tasks.drop_last(), nodes) + task_budget(tasks.last(), nodes)
    }
}

/// Whether a step has used up budget: the propagation can start fewer
/// sweeps after it, or as many while its sweep has fewer nodes left to
/// mark, or as many of both while its tasks have less budget.
pub open spec fn budget_used(
    before: &RTICommon,
    tasks: Seq<Task>,
    visited: Seq<bool>,
    after: &RTICommon,
    tasks2: Seq<Task>,
    visited2: Seq<bool>,
) -> bool {
    let sweeps = tasks_sweeps(tasks, before.scheduling_nodes@);
    let sweeps2 = tasks_sweeps(tasks2, after.scheduling_nodes@);
    let unmarked = unvisited(visited);
    let unmarked2 = unvisited(visited2);
    let budget = tasks_budget(tasks, before.scheduling_nodes@);
    let budget2 = tasks_budget(tasks2, after.scheduling_nodes@);
    sweeps2 < sweeps || (sweeps2 == sweeps && (unmarked2 < unmarked || (unmarked2 == unmarked
        && budget2 < budget)))
}

/// Whether the nodes `b` are the nodes `a` after some grants were recorded
/// and some nodes were disconnected: the connections are the same, and a
/// node of `b` that a grant is not dropped for is such a node in `a`.
pub open spec fn no_node_reopened(a: Seq<SchedulingNode>, b: Seq<SchedulingNode>) -> bool {
    &&& a.len() == b.len()
    &&& forall|i: int| 0 <= i < a.len() ==> same_links(#[trigger] a[i], b[i])
    &&& forall|i: int, tag: Tag|
        0 <= i < a.len() && grant_dropped(a[i], tag) ==> #[trigger] grant_dropped(b[i], tag)
}

proof fn lemma_sweep_cost_monotone(k1: nat, c1: nat, k2: nat, c2: nat)
    requires
        k1 <= k2,
        c1 <= c2,
    ensures
        sweep_cost(k1, c1) <= sweep_cost(k2, c2),
        1 <= sweep_cost(k1, c1),
    decreases k2,
{
    if k2 > 0 {
        if k1 == k2 {
            lemma_sweep_cost_monotone((k1 - 1) as nat, c1, (k2 - 1) as nat, c2);
        } else {
            lemma_sweep_cost_monotone(k1, c1, (k2 - 1) as nat, c2);
        }
    }
}

proof fn lemma_issue_cost_monotone(fewer: nat, more: nat, d: nat)
    requires
        fewer <= more,
    ensures
        issue_cost(fewer, d) <= issue_cost(more, d),
        1 <= issue_cost(fewer, d),
    decreases more,
{
    if more > 0 {
        if fewer == 0 {
            lemma_sweep_cost_monotone(
                d,
                issue_cost((more - 1) as nat, d),
                d,
                issue_cost((more - 1) as nat, d),
            );
        } else {
            lemma_issue_cost_monotone((fewer - 1) as nat, (more - 1) as nat, d);
            lemma_sweep_cost_monotone(
                d,
                issue_cost((fewer - 1) as nat, d),
                d,
                issue_cost((more - 1) as nat, d),
            );
        }
    }
}

proof fn lemma_max_upstream_same(a: Seq<SchedulingNode>, b: Seq<SchedulingNode>)
    requires
        a.len() == b.len(),
        forall|k: int| 0 <= k < a.len() ==> same_links(#[trigger] a[k], b[k]),
    ensures
        max_upstream(a) == max_upstream(b),
    decreases a.len(),
{
    if a.len() > 0 {
        assert(same_links(a[a.len() - 1], b[b.len() - 1]));
        assert forall|k: int| 0 <= k < a.drop_last().len() implies same_links(
            #[trigger] a.drop_last()[k],
            b.drop_last()[k],
        ) by {
            assert(same_links(a[k], b[k]));
        }
        lemma_max_upstream_same(a.drop_last(), b.drop_last());
    }
}

proof fn lemma_max_upstream_bound(a: Seq<SchedulingNode>, i: int)
    requires
        0 <= i < a.len(),
    ensures
        a[i].upstream@.len() <= max_upstream(a),
    decreases a.len(),
{
    if i < a.len() - 1 {
        lemma_max_upstream_bound(a.drop_last(), i);
    }
}

proof fn lemma_open_nodes(a: Seq<SchedulingNode>, b: Seq<SchedulingNode>, tag: Tag)
    requires
        a.len() == b.len(),
        forall|i: int| 0 <= i < a.len() && grant_dropped(a[i], tag) ==> #[trigger] grant_dropped(
            b[i],
            tag,
        ),
    ensures
        open_nodes(b, tag) <= open_nodes(a, tag) <= a.len(),
        forall|i: int|
            0 <= i < a.len() && !grant_dropped(a[i], tag) && grant_dropped(b[i], tag)
                ==> open_nodes(b, tag) < open_nodes(a, tag),
    decreases a.len(),
{
    if a.len() > 0 {
        let a0 = a.drop_last();
        let b0 = b.drop_last();
        assert forall|i: int|
            0 <= i < a0.len() && grant_dropped(a0[i], tag) implies #[trigger] grant_dropped(
            b0[i],
            tag,
        ) by {
            assert(grant_dropped(a[i], tag) ==> grant_dropped(b[i], tag));
        }
        lemma_open_nodes(a0, b0, tag);
        assert(grant_dropped(a[a.len() - 1], tag) ==> grant_dropped(b[a.len() - 1], tag));
        assert forall|i: int|
            0 <= i < a.len() && !grant_dropped(a[i], tag) && grant_dropped(b[i], tag) implies open_nodes(
            b,
            tag,
        ) < open_nodes(a, tag) by {
            if i < a.len() - 1 {
                assert(!grant_dropped(a0[i], tag) && grant_dropped(b0[i], tag));
            }
        }
    }
}

proof fn lemma_task_budget_kept(task: Task, a: Seq<SchedulingNode>, b: Seq<SchedulingNode>)
    requires
        no_node_reopened(a, b),
        task_fed(task) < a.len(),
    ensures
        task_budget(task, b) <= task_budget(task, a),
{
    let fed = task_fed(task) as int;
    lemma_max_upstream_same(a, b);
    let d = max_upstream(a);
    assert(same_links(a[fed], b[fed]));
    match task {
        Task::Consider { .. } => {},
        Task::Issue { tag, .. } => {
            lemma_open_nodes(a, b, tag);
            lemma_issue_cost_monotone(open_nodes(b, tag), open_nodes(a, tag), d);
        },
        Task::Rendezvous { tag, .. } => {
            lemma_open_nodes(a, b, tag);
            let pa = open_nodes(a, tag);
            let pb = open_nodes(b, tag);
            if pb > 0 {
                lemma_issue_cost_monotone((pb - 1) as nat, (pa - 1) as nat, d);
                lemma_sweep_cost_monotone(
                    d,
                    issue_cost((pb - 1) as nat, d),
                    d,
                    issue_cost((pa - 1) as nat, d),
                );
            }
        },
        Task::Delivery { tag, .. } => {
            lemma_open_nodes(a, b, tag);
            let pa = open_nodes(a, tag);
            let pb = open_nodes(b, tag);
            if pb > 0 {
                lemma_issue_cost_monotone((pb - 1) as nat, (pa - 1) as nat, d);
                lemma_sweep_cost_monotone(
                    d,
                    issue_cost((pb - 1) as nat, d),
                    d,
                    issue_cost((pa - 1) as nat, d),
                );
            }
        },
        Task::Upstream { fed, tag, next } => {
            lemma_open_nodes(a, b, tag);
            lemma_issue_cost_monotone(open_nodes(b, tag), open_nodes(a, tag), d);
            let k = remaining(a[fed as int].upstream@.len(), next);
            lemma_sweep_cost_monotone(
                k,
                issue_cost(open_nodes(b, tag), d),
                k,
                issue_cost(open_nodes(a, tag), d),
            );
        },
        Task::Downstream { .. } => {},
        Task::Completed { .. } => {},
    }
}

proof fn lemma_tasks_budget_kept(tasks: Seq<Task>, a: Seq<SchedulingNode>, b: Seq<SchedulingNode>)
    requires
        no_node_reopened(a, b),
        forall|k: int| 0 <= k < tasks.len() ==> task_fed(#[trigger] tasks[k]) < a.len(),
    ensures
        tasks_budget(tasks, b) <= tasks_budget(tasks, a),
        tasks_sweeps(tasks, b) == tasks_sweeps(tasks, a),
    decreases tasks.len(),
{
    if tasks.len() > 0 {
        let rest = tasks.drop_last();
        assert forall|k: int|
            0 <= k < rest.len() implies task_fed(#[trigger] rest[k]) < a.len() by {
            assert(rest[k] == tasks[k]);
        }
        lemma_tasks_budget_kept(rest, a, b);
        lemma_task_budget_kept(tasks.last(), a, b);
        let fed = task_fed(tasks[tasks.len() - 1]);
        assert(same_links(a[fed as int], b[fed as int]));
    }
}

proof fn lemma_budget_push(tasks: Seq<Task>, task: Task, nodes: Seq<SchedulingNode>)
    ensures
        tasks_budget(tasks.push(task), nodes) == tasks_budget(tasks, nodes) + task_budget(
            task,
            nodes,
        ),
        tasks_sweeps(tasks.push(task), nodes) == tasks_sweeps(tasks, nodes)
            + crate::propagation::task_sweeps(task, nodes),
{
    assert(tasks.push(task).drop_last() =~= tasks);
}

/// Every step of a steady propagation uses up budget, but the step that
/// keeps a grant waiting for the start-time message of a node that is
/// still pending: that wait ends when the node is granted or leaves. The
/// budget is finite, so the propagation is over after finitely many other
/// steps: each sweep marks a node at most once, and a grant that is
/// carried upstream is issued to a node at most once, for the node is not
/// open to it afterwards.
pub proof fn lemma_step_uses_budget(
    before: &RTICommon,
    tasks: Seq<Task>,
    visited: Seq<bool>,
    start_time: Instant,
    delivered: bool,
    after: &RTICommon,
    tasks2: Seq<Task>,
    visited2: Seq<bool>,
    action: Action,
)
    requires
        before.wf(),
        tasks_fit(tasks, visited, before.scheduling_nodes.len() as int),
        tasks_steady(tasks, before),
        stepped(before, tasks, visited, start_time, delivered, after, tasks2, visited2, action),
        tasks.len() > 0,
        !(tasks.last() is Rendezvous && action is AwaitStart),
    ensures
        budget_used(before, tasks, visited, after, tasks2, visited2),
{
    let nodes = before.scheduling_nodes@;
    let nodes2 = after.scheduling_nodes@;
    let n = nodes.len();
    let rest = tasks.drop_last();
    let top = tasks.last();
    let fed = task_fed(top);
    let d = max_upstream(nodes);
    assert(task_fed(tasks[tasks.len() - 1]) < n);
    assert(before.scheduling_nodes[fed as int].wf(n as int));
    assert forall|k: int| 0 <= k < rest.len() implies task_fed(#[trigger] rest[k]) < n by {
        assert(rest[k] == tasks[k]);
    }
    assert(no_node_reopened(nodes, nodes2)) by {
        assert forall|i: int| 0 <= i < n implies same_links(#[trigger] nodes[i], nodes2[i]) by {
            assert(same_links(after.scheduling_nodes[i], before.scheduling_nodes[i]));
        }
        assert forall|i: int, tag: Tag|
            0 <= i < n && grant_dropped(nodes[i], tag) implies #[trigger] grant_dropped(
            nodes2[i],
            tag,
        ) by {
            let b = before.scheduling_nodes[i];
            let a = after.scheduling_nodes[i];
            assert(same_links(a, b));
            if top is Delivery {
                assert(!grant_dropped(before.scheduling_nodes[fed as int], top->Delivery_tag));
            }
        }
    }
    lemma_tasks_budget_kept(rest, nodes, nodes2);
    lemma_max_upstream_same(nodes, nodes2);
    lemma_max_upstream_bound(nodes2, fed as int);
    assert(tasks_budget(tasks, nodes) == tasks_budget(rest, nodes) + task_budget(top, nodes));
    match top {
        Task::Consider { fed } => {
            let grant = crate::decision::decision_of(before, after, fed as int, start_time);
            let issue = Task::Issue { fed, tag: grant.tag, provisional: grant.is_provisional };
            lemma_budget_push(rest, issue, nodes2);
            lemma_open_nodes(nodes2, nodes2, grant.tag);
            lemma_issue_cost_monotone(open_nodes(nodes2, grant.tag), n, d);
        },
        Task::Issue { fed, tag, provisional } => {
            lemma_budget_push(rest, Task::Rendezvous { fed, tag, provisional }, nodes2);
            lemma_budget_push(rest, Task::Delivery { fed, tag, provisional }, nodes2);
            lemma_open_nodes(nodes, nodes2, tag);
            lemma_open_nodes(nodes2, nodes, tag);
            lemma_issue_cost_monotone(0, open_nodes(nodes, tag), d);
            if !grant_dropped(nodes[fed as int], tag) {
                lemma_open_positive(nodes, fed as int, tag);
            }
        },
        Task::Rendezvous { fed, tag, provisional } => {
            lemma_budget_push(rest, Task::Delivery { fed, tag, provisional }, nodes2);
            lemma_open_nodes(nodes, nodes2, tag);
            lemma_open_nodes(nodes2, nodes, tag);
            if !grant_dropped(nodes[fed as int], tag) {
                lemma_open_positive(nodes, fed as int, tag);
            }
        },
        Task::Delivery { fed, tag, provisional } => {
            let upstream = Task::Upstream { fed, tag, next: 0 };
            lemma_budget_push(rest, upstream, nodes2);
            lemma_open_positive(nodes, fed as int, tag);
            lemma_open_nodes(nodes, nodes2, tag);
            assert(!grant_dropped(nodes[fed as int], tag));
            assert(grant_dropped(nodes2[fed as int], tag));
            let open_before = open_nodes(nodes, tag);
            let open_after = open_nodes(nodes2, tag);
            lemma_issue_cost_monotone(open_after, (open_before - 1) as nat, d);
            lemma_sweep_cost_monotone(
                remaining(nodes2[fed as int].upstream@.len(), 0),
                issue_cost(open_after, d),
                d,
                issue_cost((open_before - 1) as nat, d),
            );
        },
        Task::Upstream { fed, tag, next } => {
            let node = before.scheduling_nodes[fed as int];
            lemma_open_nodes(nodes, nodes2, tag);
            lemma_open_nodes(nodes2, nodes, tag);
            if next < node.upstream@.len() {
                let u = node.upstream@[next as int];
                let resumed = rest.push(Task::Upstream { fed, tag, next: (next + 1) as usize });
                lemma_budget_push(
                    rest,
                    Task::Upstream { fed, tag, next: (next + 1) as usize },
                    nodes2,
                );
                lemma_budget_push(
                    resumed,
                    Task::Issue { fed: u as u16, tag, provisional: true },
                    nodes2,
                );
            }
        },
        Task::Downstream { fed, next } => {
            let node = before.scheduling_nodes[fed as int];
            if next < node.downstream@.len() {
                let d = node.downstream@[next as int];
                let resumed = rest.push(Task::Downstream { fed, next: (next + 1) as usize });
                lemma_budget_push(
                    rest,
                    Task::Downstream { fed, next: (next + 1) as usize },
                    nodes2,
                );
                if !visited[d as int] {
                    let deeper = resumed.push(Task::Downstream { fed: d as u16, next: 0 });
                    lemma_budget_push(resumed, Task::Downstream { fed: d as u16, next: 0 }, nodes2);
                    lemma_budget_push(deeper, Task::Consider { fed: d as u16 }, nodes2);
                    lemma_unvisited_mark(visited, d as int);
                }
            }
        },
        Task::Completed { fed, next } => {
            let node = before.scheduling_nodes[fed as int];
            if next < node.downstream@.len() {
                let d = node.downstream@[next as int];
                let resumed = rest.push(Task::Completed { fed, next: (next + 1) as usize });
                let deeper = resumed.push(Task::Downstream { fed: d as u16, next: 0 });
                lemma_budget_push(rest, Task::Completed { fed, next: (next + 1) as usize }, nodes2);
                lemma_budget_push(resumed, Task::Downstream { fed: d as u16, next: 0 }, nodes2);
                lemma_budget_push(deeper, Task::Consider { fed: d as u16 }, nodes2);
            }
        },
    }
}

proof fn lemma_open_positive(nodes: Seq<SchedulingNode>, i: int, tag: Tag)
    requires
        0 <= i < nodes.len(),
        !grant_dropped(nodes[i], tag),
    ensures
        open_nodes(nodes, tag) >= 1,
    decreases nodes.len(),
{
    if i < nodes.len() - 1 {
        lemma_open_positive(nodes.drop_last(), i, tag);
    }
}

/// Whether the `j`-th downstream connection of node `v` is still to be
/// followed: a task to sweep downstream of `v` has not passed it.
pub open spec fn connection_pending(tasks: Seq<Task>, v: int, j: int) -> bool {
    exists|k: int|
        0 <= k < tasks.len() && (#[trigger] tasks[k]) is Downstream && tasks[k]->Downstream_fed
            == v && tasks[k]->Downstream_next <= j
}

/// Whether a sweep is in order: every downstream connection of a marked
/// node leads to a marked node or is still to be followed.
pub open spec fn sweep_in_order(
    nodes: Seq<SchedulingNode>,
    tasks: Seq<Task>,
    visited: Seq<bool>,
) -> bool {
    forall|v: int, j: int|
        0 <= v < nodes.len() && visited[v] && 0 <= j < nodes[v].downstream@.len() ==> visited[(
        #[trigger] nodes[v].downstream@[j]) as int] || connection_pending(tasks, v, j)
}

/// Whether node `b` is immediately downstream of node `a`.
pub open spec fn immediately_downstream(nodes: Seq<SchedulingNode>, a: int, b: int) -> bool {
    exists|j: int|
        0 <= j < nodes[a].downstream@.len() && #[trigger] nodes[a].downstream@[j] == b
}

/// Whether `path` leads from node `from` to node `to` along downstream
/// connections.
pub open spec fn is_downstream_path(
    nodes: Seq<SchedulingNode>,
    from: int,
    to: int,
    path: Seq<int>,
) -> bool {
    &&& path.len() >= 1
    &&& path[0] == from
    &&& path.last() == to
    &&& forall|i: int| 0 <= i < path.len() ==> 0 <= #[trigger] path[i] < nodes.len()
    &&& forall|i: int|
        0 <= i < path.len() - 1 ==> immediately_downstream(nodes, #[trigger] path[i], path[i + 1])
}

/// A sweep that is in order stays in order with every step.
pub proof fn lemma_step_keeps_sweep_in_order(
    before: &RTICommon,
    tasks: Seq<Task>,
    visited: Seq<bool>,
    start_time: Instant,
    delivered: bool,
    after: &RTICommon,
    tasks2: Seq<Task>,
    visited2: Seq<bool>,
    action: Action,
)
    requires
        before.wf(),
        tasks_fit(tasks, visited, before.scheduling_nodes.len() as int),
        stepped(before, tasks, visited, start_time, delivered, after, tasks2, visited2, action),
        sweep_in_order(before.scheduling_nodes@, tasks, visited),
    ensures
        sweep_in_order(after.scheduling_nodes@, tasks2, visited2),
{
    let nodes = before.scheduling_nodes@;
    let nodes2 = after.scheduling_nodes@;
    let n = nodes.len() as int;
    if tasks.len() == 0 {
        assert forall|i: int| 0 <= i < n implies same_links(#[trigger] nodes[i], nodes2[i]) by {
            assert(same_links(after.scheduling_nodes[i], before.scheduling_nodes[i]));
        }
    } else {
        let rest = tasks.drop_last();
        let top = tasks.last();
        let top_at = tasks.len() - 1;
        assert(task_fed(tasks[top_at]) < n);
        assert(before.scheduling_nodes[task_fed(top) as int].wf(n));
        assert forall|i: int| 0 <= i < n implies same_links(#[trigger] nodes[i], nodes2[i]) by {
            assert(same_links(after.scheduling_nodes[i], before.scheduling_nodes[i]));
        }
        assert forall|v: int, j: int|
            0 <= v < n && visited2[v] && 0 <= j < nodes2[v].downstream@.len() implies visited2[(
        #[trigger] nodes2[v].downstream@[j]) as int] || connection_pending(tasks2, v, j) by {
            assert(same_links(nodes[v], nodes2[v]));
            let to = nodes[v].downstream@[j] as int;
            assert(before.scheduling_nodes[v].wf(n));
            assert(0 <= to < n);
            match top {
                Task::Downstream { fed, next } => {
                    let node = before.scheduling_nodes[fed as int];
                    if next < node.downstream@.len() {
                        let d = node.downstream@[next as int] as int;
                        let resumed = rest.push(
                            Task::Downstream { fed, next: (next + 1) as usize },
                        );
                        assert(resumed[rest.len() as int] == (Task::Downstream {
                            fed,
                            next: (next + 1) as usize,
                        }));
                        if visited[d] {
                            lemma_sweep_edge(tasks, tasks2, visited, v, j, to, top_at);
                        } else {
                            assert(tasks2[rest.len() as int] == resumed[rest.len() as int]);
                            assert(tasks2[rest.len() as int + 1] == (Task::Downstream {
                                fed: d as u16,
                                next: 0,
                            }));
                            if v == d {
                                assert(connection_pending(tasks2, v, j));
                            } else if v == fed && j == next {
                                assert(to == d);
                            } else {
                                lemma_sweep_edge(tasks, tasks2, visited, v, j, to, top_at);
                            }
                        }
                    } else {
                        lemma_sweep_edge(tasks, tasks2, visited, v, j, to, top_at);
                    }
                },
                Task::Completed { fed, next } => {
                    let node = before.scheduling_nodes[fed as int];
                    if next < node.downstream@.len() {
                        let d = node.downstream@[next as int] as int;
                        assert(v == d);
                        assert(tasks2[rest.len() as int + 1] == (Task::Downstream {
                            fed: d as u16,
                            next: 0,
                        }));
                        assert(connection_pending(tasks2, v, j));
                    } else {
                        lemma_sweep_edge(tasks, tasks2, visited, v, j, to, top_at);
                    }
                },
                _ => {
                    lemma_sweep_edge(tasks, tasks2, visited, v, j, to, top_at);
                },
            }
        }
    }
}

/// A connection that was to be followed by a task below the top is still
/// to be followed when the tasks below the top are kept; and one that was
/// to be followed by a sweep on top is when the tasks that replace the top
/// begin with that sweep moved on by at most the connection.
proof fn lemma_sweep_edge(
    tasks: Seq<Task>,
    tasks2: Seq<Task>,
    visited: Seq<bool>,
    v: int,
    j: int,
    to: int,
    top_at: int,
)
    requires
        tasks.len() > 0,
        top_at == tasks.len() - 1,
        tasks2.len() >= top_at,
        forall|k: int| 0 <= k < top_at ==> #[trigger] tasks2[k] == tasks[k],
        visited[to] || connection_pending(tasks, v, j),
        visited[to] || !(tasks[top_at] is Downstream && tasks[top_at]->Downstream_fed == v
            && tasks[top_at]->Downstream_next <= j) || (tasks2.len() > top_at
            && tasks2[top_at] is Downstream && tasks2[top_at]->Downstream_fed == v
            && tasks2[top_at]->Downstream_next <= j),
    ensures
        visited[to] || connection_pending(tasks2, v, j),
{
    if !visited[to] {
        let k = choose|k: int|
            0 <= k < tasks.len() && (#[trigger] tasks[k]) is Downstream && tasks[k]->Downstream_fed
                == v && tasks[k]->Downstream_next <= j;
        if k < top_at {
            assert(tasks2[k] == tasks[k]);
        } else {
            assert(tasks2[top_at] is Downstream);
        }
    }
}

/// When a propagation whose sweep is in order is over, the marks are
/// closed under the downstream connections: every node that a path of
/// downstream connections leads to from a marked node is marked.
pub proof fn lemma_finished_sweep_is_complete(
    nodes: Seq<SchedulingNode>,
    visited: Seq<bool>,
    from: int,
    to: int,
    path: Seq<int>,
)
    requires
        sweep_in_order(nodes, Seq::<Task>::empty(), visited),
        is_downstream_path(nodes, from, to, path),
        visited[from],
    ensures
        visited[to],
    decreases path.len(),
{
    if path.len() > 1 {
        let shorter = path.drop_last();
        let via = shorter.last();
        let last = path.len() - 2;
        assert(shorter[0] == path[0]);
        assert(path[last] == via);
        assert forall|i: int| 0 <= i < shorter.len() implies 0 <= #[trigger] shorter[i]
            < nodes.len() by {
            assert(shorter[i] == path[i]);
        }
        assert forall|i: int| 0 <= i < shorter.len() - 1 implies immediately_downstream(
            nodes,
            #[trigger] shorter[i],
            shorter[i + 1],
        ) by {
            assert(shorter[i + 1] == path[i + 1]);
            assert(immediately_downstream(nodes, path[i], path[i + 1]));
        }
        lemma_finished_sweep_is_complete(nodes, visited, from, via, shorter);
        assert(immediately_downstream(nodes, path[last], path[last + 1]));
        let j = choose|j: int|
            0 <= j < nodes[via].downstream@.len() && #[trigger] nodes[via].downstream@[j] == to;
        assert(visited[nodes[via].downstream@[j] as int] || connection_pending(
            Seq::<Task>::empty(),
            via,
            j,
        ));
    }
}

} // verus!
