//! Grant propagation: after a node reports its next event or a completed
//! tag, the nodes that may now advance are found and their grants are
//! issued.
//!
//! Handing a grant to the dispatcher and waiting for the start-time message
//! are the caller's part. The caller therefore drives a propagation: each
//! step does the work of one task under the registry lock and says what the
//! caller has to do before the next step.

use crate::decision::{
    decision_made, decision_of, earliest_incoming_message_tag, incoming_computed,
    lemma_decision_keeps_caches_valid, lemma_decision_keeps_flags,
    lemma_decision_keeps_flags_sound,
};
use crate::min_delays::{
    caches_valid, flags_follow_caches, flags_sound, lemma_caches_stay_valid,
    lemma_flags_stay_sound, lemma_flags_still_follow, lemma_same_graph,
};
use crate::progress::{connection_pending, lemma_step_keeps_sweep_in_order, sweep_in_order};
use crate::rti_common::{
    cache_empty, same_cache, same_links, same_tags, state_follows, RTICommon, SchedulingNode,
    SchedulingNodeState, TagAdvanceGrant,
};
use crate::tag::{Instant, Tag};
use crate::transitive::unvisited;
use vstd::bytes::{spec_u32_to_le_bytes, spec_u64_to_le_bytes, u32_to_le_bytes, u64_to_le_bytes};
use vstd::prelude::*;

verus! {

/// Length of a grant frame: one byte of message type, eight of time and
/// four of microstep.
pub const GRANT_FRAME_LENGTH: usize = 13;

/// The frame that carries a grant of `tag`: the message type, then the time
/// as a 64-bit and the microstep as a 32-bit little-endian integer.
pub open spec fn grant_frame(msg_type: u8, tag: Tag) -> Seq<u8> {
    seq![msg_type] + spec_u64_to_le_bytes(tag.time as u64) + spec_u32_to_le_bytes(tag.microstep)
}

/// Encodes the frame that carries a grant of `tag` under the message type
/// `msg_type`.
pub fn encode_tag_advance_grant(msg_type: u8, tag: &Tag) -> (frame: Vec<u8>)
    ensures
        frame@ == grant_frame(msg_type, *tag),
        frame@.len() == GRANT_FRAME_LENGTH,
        frame@[0] == msg_type,
{
    let mut frame: Vec<u8> = Vec::new();
    frame.push(msg_type);
    let mut time_bytes = u64_to_le_bytes(#[verifier::truncate] (tag.time as u64));
    let mut microstep_bytes = u32_to_le_bytes(tag.microstep);
    proof {
        vstd::bytes::lemma_auto_spec_u64_to_from_le_bytes();
        vstd::bytes::lemma_auto_spec_u32_to_from_le_bytes();
    }
    frame.append(&mut time_bytes);
    frame.append(&mut microstep_bytes);
    frame
}

/// Whether a grant was delivered, from what the write of its frame gave:
/// the number of bytes written, or nothing where the write failed. A grant
/// is delivered only if its whole frame went out: a short write is a
/// failure as much as a failed one.
pub fn frame_delivered(written: Option<usize>) -> (delivered: bool)
    ensures
        delivered == (written == Some(GRANT_FRAME_LENGTH)),
{
    match written {
        None => false,
        Some(bytes_written) => bytes_written == GRANT_FRAME_LENGTH,
    }
}

/// One piece of work of a propagation.
#[derive(Clone, Copy, PartialEq, Eq, Structural, Debug)]
pub enum Task {
    /// Decide whether node `fed` can be granted a tag, and issue the grant.
    Consider { fed: u16 },
    /// Issue a grant of `tag` to node `fed`, unless it is redundant.
    Issue { fed: u16, tag: Tag, provisional: bool },
    /// The grant waits for the start-time message to have gone to `fed`.
    Rendezvous { fed: u16, tag: Tag, provisional: bool },
    /// The grant was handed out for sending; its outcome is awaited.
    Delivery { fed: u16, tag: Tag, provisional: bool },
    /// Carry the provisional grant of `tag` on to the upstream nodes of
    /// `fed`, from its upstream connection `next` on.
    Upstream { fed: u16, tag: Tag, next: usize },
    /// Consider the nodes downstream of `fed`, from its downstream
    /// connection `next` on, and the nodes downstream of them.
    Downstream { fed: u16, next: usize },
    /// After node `fed` completed a tag: consider each node immediately
    /// downstream, from the downstream connection `next` on, and sweep
    /// downstream of it anew.
    Completed { fed: u16, next: usize },
}

/// What the caller of a step has to do before the next step.
#[derive(Clone, Copy, PartialEq, Eq, Structural, Debug)]
pub enum Action {
    /// The propagation is over.
    Done,
    /// Nothing: take the next step.
    Continue,
    /// Wait until the start-time message has been sent to node `fed_id`.
    /// The next step looks at the node again.
    AwaitStart { fed_id: u16 },
    /// Send the grant to node `fed_id`, and tell the next step whether it
    /// was delivered.
    Send { fed_id: u16, grant: TagAdvanceGrant },
}

/// The node that a task is about.
pub open spec fn task_fed(task: Task) -> u16 {
    match task {
        Task::Consider { fed } => fed,
        Task::Issue { fed, .. } => fed,
        Task::Rendezvous { fed, .. } => fed,
        Task::Delivery { fed, .. } => fed,
        Task::Upstream { fed, .. } => fed,
        Task::Downstream { fed, .. } => fed,
        Task::Completed { fed, .. } => fed,
    }
}

/// Whether a task holds a grant that is on its way: it waits for the
/// start-time message or for the outcome of the sending.
pub open spec fn grant_under_way(task: Task) -> bool {
    task is Rendezvous || task is Delivery
}

/// Whether a grant of `tag` to a node is dropped: the node is not
/// connected, or the tag is not above both the last granted and the last
/// provisionally granted tag.
pub open spec fn grant_dropped(node: SchedulingNode, tag: Tag) -> bool {
    ||| node.state == SchedulingNodeState::NotConnected
    ||| tag.le(node.last_granted)
    ||| tag.le(node.last_provisionally_granted)
}

/// What a registry is after a grant of `tag` to node `fed` was delivered:
/// the tag is the last granted tag of the node, or the last provisionally
/// granted one for a provisional grant, and all else is as before.
pub open spec fn grant_recorded(
    before: &RTICommon,
    after: &RTICommon,
    fed: int,
    tag: Tag,
    provisional: bool,
) -> bool {
    &&& after.same_frame(before)
    &&& forall|i: int|
        0 <= i < before.scheduling_nodes.len() ==> {
            let b = before.scheduling_nodes[i];
            let a = #[trigger] after.scheduling_nodes[i];
            &&& same_links(a, b)
            &&& same_cache(a, b)
            &&& a.state == b.state
            &&& a.flags == b.flags
            &&& a.completed == b.completed
            &&& a.next_event == b.next_event
            &&& a.last_granted == if i == fed && !provisional {
                tag
            } else {
                b.last_granted
            }
            &&& a.last_provisionally_granted == if i == fed && provisional {
                tag
            } else {
                b.last_provisionally_granted
            }
        }
}

/// What a registry is after a grant to node `fed` could not be delivered:
/// the node is not connected any more, every cache of minimum delays is
/// emptied, and all else is as before.
pub open spec fn delivery_failed(before: &RTICommon, after: &RTICommon, fed: int) -> bool {
    &&& after.same_frame(before)
    &&& forall|i: int|
        0 <= i < before.scheduling_nodes.len() ==> {
            let b = before.scheduling_nodes[i];
            let a = #[trigger] after.scheduling_nodes[i];
            &&& same_links(a, b)
            &&& same_tags(a, b)
            &&& cache_empty(a)
            &&& a.flags == b.flags
            &&& a.state == if i == fed {
                SchedulingNodeState::NotConnected
            } else {
                b.state
            }
        }
}

/// How a grant of `tag` is issued to the node `fed`, as the node is now,
/// above the tasks `rest`. The grant is dropped where the node is not connected or
/// the tag is not above its last granted and last provisionally granted
/// tags. It waits for the start-time message where the node is pending. It
/// is handed out for sending otherwise: the node is in the state `Granted`.
/// A grant that has waited is looked at in the same way again, for the
/// registry may have changed while it waited.
pub open spec fn grant_issued(
    node: SchedulingNode,
    fed: u16,
    rest: Seq<Task>,
    tag: Tag,
    provisional: bool,
    tasks2: Seq<Task>,
    action: Action,
) -> bool {
    if grant_dropped(node, tag) {
        tasks2 == rest && action == Action::Continue
    } else if node.state == SchedulingNodeState::Pending {
        tasks2 == rest.push(Task::Rendezvous { fed, tag, provisional }) && action == (
        Action::AwaitStart { fed_id: fed })
    } else {
        tasks2 == rest.push(Task::Delivery { fed, tag, provisional }) && action == (Action::Send {
            fed_id: fed,
            grant: TagAdvanceGrant { tag, is_provisional: provisional },
        })
    }
}

/// The marks of a sweep that has visited node `d` only, among `n` nodes.
pub open spec fn only_marked(n: nat, d: int) -> Seq<bool> {
    Seq::new(n, |i: int| i == d)
}

/// The step of a propagation: how the registry, the tasks and the marks
/// after the step, and the action it returns, follow from those before it.
/// The task on top, the last one, is taken off and worked on.
pub open spec fn stepped(
    before: &RTICommon,
    tasks: Seq<Task>,
    visited: Seq<bool>,
    start_time: Instant,
    delivered: bool,
    after: &RTICommon,
    tasks2: Seq<Task>,
    visited2: Seq<bool>,
    action: Action,
) -> bool {
    if tasks.len() == 0 {
        after.same_as(before) && tasks2 == tasks && visited2 == visited && action == Action::Done
    } else {
        let rest = tasks.drop_last();
        match tasks.last() {
            Task::Consider { fed } => {
                let grant = decision_of(before, after, fed as int, start_time);
                &&& decision_made(before, after, fed as int, start_time)
                &&& tasks2 == if grant.tag != Tag::never() {
                    rest.push(
                        Task::Issue { fed, tag: grant.tag, provisional: grant.is_provisional },
                    )
                } else {
                    rest
                }
                &&& visited2 == visited
                &&& action == Action::Continue
            },
            Task::Issue { fed, tag, provisional } => {
                &&& after.same_as(before)
                &&& visited2 == visited
                &&& grant_issued(
                    before.scheduling_nodes[fed as int],
                    fed,
                    rest,
                    tag,
                    provisional,
                    tasks2,
                    action,
                )
            },
            Task::Rendezvous { fed, tag, provisional } => {
                &&& after.same_as(before)
                &&& visited2 == visited
                &&& grant_issued(
                    before.scheduling_nodes[fed as int],
                    fed,
                    rest,
                    tag,
                    provisional,
                    tasks2,
                    action,
                )
            },
            Task::Delivery { fed, tag, provisional } => {
                &&& if delivered {
                    grant_recorded(before, after, fed as int, tag, provisional)
                } else {
                    delivery_failed(before, after, fed as int)
                }
                &&& tasks2 == if provisional {
                    rest.push(Task::Upstream { fed, tag, next: 0 })
                } else {
                    rest
                }
                &&& visited2 == visited
                &&& action == Action::Continue
            },
            Task::Upstream { fed, tag, next } => {
                let node = before.scheduling_nodes[fed as int];
                &&& visited2 == visited
                &&& action == Action::Continue
                &&& if next >= node.upstream@.len() {
                    after.same_as(before) && tasks2 == rest
                } else {
                    let u = node.upstream@[next as int];
                    let resumed = rest.push(Task::Upstream { fed, tag, next: (next + 1) as usize });
                    let upstream = before.scheduling_nodes[u as int];
                    if upstream.state == SchedulingNodeState::NotConnected {
                        after.same_as(before) && tasks2 == resumed
                    } else {
                        &&& incoming_computed(before, after, u as int, start_time)
                        &&& tasks2 == if tag.le(
                            earliest_incoming_message_tag(after, u as int, start_time),
                        ) {
                            resumed.push(Task::Issue { fed: u as u16, tag, provisional: true })
                        } else {
                            resumed
                        }
                    }
                }
            },
            Task::Downstream { fed, next } => {
                let node = before.scheduling_nodes[fed as int];
                &&& after.same_as(before)
                &&& action == Action::Continue
                &&& if next >= node.downstream@.len() {
                    tasks2 == rest && visited2 == visited
                } else {
                    let d = node.downstream@[next as int];
                    let resumed = rest.push(Task::Downstream { fed, next: (next + 1) as usize });
                    if visited[d as int] {
                        tasks2 == resumed && visited2 == visited
                    } else {
                        &&& tasks2 == resumed.push(
                            Task::Downstream { fed: d as u16, next: 0 },
                        ).push(Task::Consider { fed: d as u16 })
                        &&& visited2 == visited.update(d as int, true)
                    }
                }
            },
            Task::Completed { fed, next } => {
                let node = before.scheduling_nodes[fed as int];
                &&& after.same_as(before)
                &&& action == Action::Continue
                &&& if next >= node.downstream@.len() {
                    tasks2 == rest && visited2 == visited
                } else {
                    let d = node.downstream@[next as int];
                    &&& tasks2 == rest.push(
                        Task::Completed { fed, next: (next + 1) as usize },
                    ).push(Task::Downstream { fed: d as u16, next: 0 }).push(
                        Task::Consider { fed: d as u16 },
                    )
                    &&& visited2 == only_marked(visited.len(), d as int)
                }
            },
        }
    }
}

/// The tasks of a propagation, the last one on top, and the marks of the
/// downstream sweep under way.
#[derive(Debug)]
pub struct Propagation {
    pub tasks: Vec<Task>,
    pub visited: Vec<bool>,
}

/// Whether tasks and marks fit a registry of `n` nodes: there is a mark for
/// each node, and each task is about a node of the registry.
pub open spec fn tasks_fit(tasks: Seq<Task>, visited: Seq<bool>, n: int) -> bool {
    &&& visited.len() == n
    &&& forall|k: int| 0 <= k < tasks.len() ==> task_fed(#[trigger] tasks[k]) < n
}

/// Whether the tasks are as a propagation leaves them when nothing else
/// has changed the registry since a grant was handed out for sending: only
/// the task on top holds a grant under way, and a grant that was handed out
/// would still not be dropped. A grant that waits for the start-time
/// message is looked at again when the wait is over, and is under no such
/// condition.
pub open spec fn tasks_steady(tasks: Seq<Task>, rti: &RTICommon) -> bool {
    &&& forall|k: int| 0 <= k < tasks.len() - 1 ==> !grant_under_way(#[trigger] tasks[k])
    &&& tasks.len() > 0 ==> match tasks.last() {
        Task::Delivery { fed, tag, .. } => !grant_dropped(rti.scheduling_nodes[fed as int], tag),
        _ => true,
    }
}

/// Whether no node has lost a grant or changed its completed tag from
/// `before` to `after`.
pub open spec fn grants_kept(before: &RTICommon, after: &RTICommon) -> bool {
    &&& after.scheduling_nodes.len() == before.scheduling_nodes.len()
    &&& forall|i: int|
        0 <= i < before.scheduling_nodes.len() ==> {
            let b = before.scheduling_nodes[i];
            let a = #[trigger] after.scheduling_nodes[i];
            &&& b.last_granted.le(a.last_granted)
            &&& b.last_provisionally_granted.le(a.last_provisionally_granted)
            &&& a.completed == b.completed
        }
}

impl Propagation {
    /// Whether the propagation fits the registry.
    pub open spec fn fits(&self, rti: &RTICommon) -> bool {
        tasks_fit(self.tasks@, self.visited@, rti.scheduling_nodes.len() as int)
    }

    /// Tests whether the propagation fits the registry.
    pub fn fits_registry(&self, rti: &RTICommon) -> (result: bool)
        ensures
            result == self.fits(rti),
    {
        let n: usize = rti.scheduling_nodes.len();
        if self.visited.len() != n {
            return false;
        }
        let mut k: usize = 0;
        while k < self.tasks.len()
            invariant
                k <= self.tasks.len(),
                n == rti.scheduling_nodes.len(),
                forall|l: int| 0 <= l < k ==> task_fed(#[trigger] self.tasks[l]) < n,
            decreases self.tasks.len() - k,
        {
            let fed: u16 = match self.tasks[k] {
                Task::Consider { fed } => fed,
                Task::Issue { fed, .. } => fed,
                Task::Rendezvous { fed, .. } => fed,
                Task::Delivery { fed, .. } => fed,
                Task::Upstream { fed, .. } => fed,
                Task::Downstream { fed, .. } => fed,
                Task::Completed { fed, .. } => fed,
            };
            if fed as usize >= n {
                assert(!(task_fed(self.tasks@[k as int]) < n));
                return false;
            }
            k = k + 1;
        }
        true
    }

    /// Whether the propagation is over: no task is left.
    pub fn is_done(&self) -> (result: bool)
        ensures
            result == (self.tasks@.len() == 0),
    {
        self.tasks.len() == 0
    }

    /// Issues a grant of `tag` to a node, as the node is now: drops it,
    /// makes it wait for the start-time message, or hands it out for
    /// sending.
    fn issue(&mut self, node: &SchedulingNode, fed: u16, tag: Tag, provisional: bool) -> (action:
        Action)
        ensures
            final(self).visited@ == old(self).visited@,
            grant_issued(
                *node,
                fed,
                old(self).tasks@,
                tag,
                provisional,
                final(self).tasks@,
                action,
            ),
    {
        if node.state == SchedulingNodeState::NotConnected || Tag::lf_tag_compare(
            &tag,
            &node.last_granted,
        ) <= 0 || Tag::lf_tag_compare(&tag, &node.last_provisionally_granted) <= 0 {
            Action::Continue
        } else if node.state == SchedulingNodeState::Pending {
            // The start-time message has to go out first.
            self.tasks.push(Task::Rendezvous { fed, tag, provisional });
            Action::AwaitStart { fed_id: fed }
        } else {
            self.tasks.push(Task::Delivery { fed, tag, provisional });
            Action::Send { fed_id: fed, grant: TagAdvanceGrant { tag, is_provisional: provisional } }
        }
    }

    /// Takes one step of the propagation: works on the task on top and
    /// returns what the caller has to do before the next step. `delivered`
    /// is read only by the step after an `Action::Send`, and tells whether
    /// the whole frame of the grant went out.
    pub fn step(&mut self, rti: &mut RTICommon, start_time: Instant, delivered: bool) -> (action:
        Action)
        requires
            old(rti).wf(),
            old(self).fits(old(rti)),
        ensures
            final(rti).wf(),
            final(self).fits(final(rti)),
            stepped(
                old(rti),
                old(self).tasks@,
                old(self).visited@,
                start_time,
                delivered,
                final(rti),
                final(self).tasks@,
                final(self).visited@,
                action,
            ),
    {
        let ghost tasks0 = self.tasks@;
        let ghost n = rti.scheduling_nodes.len() as int;
        let task = match self.tasks.pop() {
            None => {
                return Action::Done;
            },
            Some(task) => task,
        };
        let ghost rest = tasks0.drop_last();
        assert(self.tasks@ =~= rest);
        assert(task == tasks0.last());
        assert(task_fed(tasks0[tasks0.len() - 1]) < n);
        assert forall|k: int| 0 <= k < rest.len() implies task_fed(#[trigger] rest[k]) < n by {
            assert(rest[k] == tasks0[k]);
        }
        match task {
            Task::Consider { fed } => {
                let grant = SchedulingNode::tag_advance_grant_if_safe(rti, fed, start_time);
                if Tag::lf_tag_compare(&grant.tag, &Tag::never_tag()) != 0 {
                    self.tasks.push(
                        Task::Issue { fed, tag: grant.tag, provisional: grant.is_provisional },
                    );
                }
                Action::Continue
            },
            Task::Issue { fed, tag, provisional } => {
                self.issue(&rti.scheduling_nodes[fed as usize], fed, tag, provisional)
            },
            Task::Rendezvous { fed, tag, provisional } => {
                // The registry may have changed while the grant waited:
                // look at the node again.
                self.issue(&rti.scheduling_nodes[fed as usize], fed, tag, provisional)
            },
            Task::Delivery { fed, tag, provisional } => {
                if !delivered {
                    // A soft failure: the node is taken to have left.
                    rti.scheduling_nodes[fed as usize].state = SchedulingNodeState::NotConnected;
                    proof {
                        assert forall|i: int|
                            0 <= i < n implies (#[trigger] rti.scheduling_nodes[i]).wf(
                            n,
                        ) && rti.scheduling_nodes[i].id == i by {
                            assert(old(rti).scheduling_nodes[i].wf(n));
                        }
                    }
                    rti.invalidate_min_delays();
                } else {
                    if provisional {
                        rti.scheduling_nodes[fed as usize].last_provisionally_granted = tag;
                    } else {
                        rti.scheduling_nodes[fed as usize].last_granted = tag;
                    }
                    proof {
                        assert forall|i: int|
                            0 <= i < n implies (#[trigger] rti.scheduling_nodes[i]).wf(
                            n,
                        ) && rti.scheduling_nodes[i].id == i by {
                            assert(old(rti).scheduling_nodes[i].wf(n));
                        }
                    }
                }
                if provisional {
                    // Carry the provisional grant on to the upstream nodes.
                    self.tasks.push(Task::Upstream { fed, tag, next: 0 });
                }
                Action::Continue
            },
            Task::Upstream { fed, tag, next } => {
                assert(rti.scheduling_nodes[fed as int].wf(n));
                if next < rti.scheduling_nodes[fed as usize].upstream.len() {
                    let upstream_id: i32 = rti.scheduling_nodes[fed as usize].upstream[next];
                    self.tasks.push(Task::Upstream { fed, tag, next: next + 1 });
                    // A node that has resigned gets no grant.
                    if rti.scheduling_nodes[upstream_id as usize].state
                        != SchedulingNodeState::NotConnected {
                        let earliest = SchedulingNode::earliest_future_incoming_message_tag(
                            rti,
                            upstream_id as u16,
                            start_time,
                        );
                        if Tag::lf_tag_compare(&earliest, &tag) >= 0 {
                            self.tasks.push(
                                Task::Issue { fed: upstream_id as u16, tag, provisional: true },
                            );
                        }
                    }
                }
                Action::Continue
            },
            Task::Downstream { fed, next } => {
                assert(rti.scheduling_nodes[fed as int].wf(n));
                if next < rti.scheduling_nodes[fed as usize].downstream.len() {
                    let downstream_id: i32 = rti.scheduling_nodes[fed as usize].downstream[next];
                    self.tasks.push(Task::Downstream { fed, next: next + 1 });
                    if !self.visited[downstream_id as usize] {
                        self.visited[downstream_id as usize] = true;
                        self.tasks.push(Task::Downstream { fed: downstream_id as u16, next: 0 });
                        self.tasks.push(Task::Consider { fed: downstream_id as u16 });
                    }
                }
                Action::Continue
            },
            Task::Completed { fed, next } => {
                assert(rti.scheduling_nodes[fed as int].wf(n));
                if next < rti.scheduling_nodes[fed as usize].downstream.len() {
                    let downstream_id: i32 = rti.scheduling_nodes[fed as usize].downstream[next];
                    self.tasks.push(Task::Completed { fed, next: next + 1 });
                    // A new sweep for each node immediately downstream.
                    self.visited = fresh_marks(self.visited.len(), downstream_id as usize);
                    self.tasks.push(Task::Downstream { fed: downstream_id as u16, next: 0 });
                    self.tasks.push(Task::Consider { fed: downstream_id as u16 });
                }
                Action::Continue
            },
        }
    }
}

/// Marks for `n` nodes of which node `d` alone is marked.
fn fresh_marks(n: usize, d: usize) -> (marks: Vec<bool>)
    ensures
        marks@ == only_marked(n as nat, d as int),
{
    let mut marks: Vec<bool> = Vec::new();
    let mut i: usize = 0;
    while i < n
        invariant
            i <= n,
            marks@.len() == i,
            forall|k: int| 0 <= k < i ==> #[trigger] marks@[k] == (k == d),
        decreases n - i,
    {
        marks.push(i == d);
        i = i + 1;
    }
    assert(marks@ =~= only_marked(n as nat, d as int));
    marks
}

/// Marks for `n` nodes of which none is marked.
fn no_marks(n: usize) -> (marks: Vec<bool>)
    ensures
        marks@ == Seq::new(n as nat, |i: int| false),
{
    let mut marks: Vec<bool> = Vec::new();
    let mut i: usize = 0;
    while i < n
        invariant
            i <= n,
            marks@.len() == i,
            forall|k: int| 0 <= k < i ==> !(#[trigger] marks@[k]),
        decreases n - i,
    {
        marks.push(false);
        i = i + 1;
    }
    assert(marks@ =~= Seq::new(n as nat, |i: int| false));
    marks
}

/// What a registry is after node `fed` reported the next event tag `tag`:
/// the tag is recorded, and all else is as before.
pub open spec fn next_event_reported(
    before: &RTICommon,
    after: &RTICommon,
    fed: int,
    tag: Tag,
) -> bool {
    &&& after.same_frame(before)
    &&& forall|i: int|
        0 <= i < before.scheduling_nodes.len() ==> {
            let b = before.scheduling_nodes[i];
            let a = #[trigger] after.scheduling_nodes[i];
            &&& same_links(a, b)
            &&& same_cache(a, b)
            &&& a.state == b.state
            &&& a.flags == b.flags
            &&& a.completed == b.completed
            &&& a.last_granted == b.last_granted
            &&& a.last_provisionally_granted == b.last_provisionally_granted
            &&& a.next_event == if i == fed {
                tag
            } else {
                b.next_event
            }
        }
}

/// What a registry is after node `fed` reported the tag `tag` complete:
/// the tag is recorded, and all else is as before.
pub open spec fn completion_reported(
    before: &RTICommon,
    after: &RTICommon,
    fed: int,
    tag: Tag,
) -> bool {
    &&& after.same_frame(before)
    &&& forall|i: int|
        0 <= i < before.scheduling_nodes.len() ==> {
            let b = before.scheduling_nodes[i];
            let a = #[trigger] after.scheduling_nodes[i];
            &&& same_links(a, b)
            &&& same_cache(a, b)
            &&& a.state == b.state
            &&& a.flags == b.flags
            &&& a.next_event == b.next_event
            &&& a.last_granted == b.last_granted
            &&& a.last_provisionally_granted == b.last_provisionally_granted
            &&& a.completed == if i == fed {
                tag
            } else {
                b.completed
            }
        }
}

impl SchedulingNode {
    /// Records the next event tag that node `fed_id` has reported and
    /// starts the propagation that follows: the node itself is considered
    /// for a grant if it has upstream nodes, for a node without any does not
    /// wait for one, and then the nodes downstream of it are, in a new
    /// sweep. The caller drives it with `Propagation::advance`.
    pub fn update_scheduling_node_next_event_tag_locked(
        rti: &mut RTICommon,
        fed_id: u16,
        next_event_tag: Tag,
    ) -> (propagation: Propagation)
        requires
            old(rti).wf(),
            fed_id < old(rti).scheduling_nodes.len(),
        ensures
            final(rti).wf(),
            next_event_reported(old(rti), final(rti), fed_id as int, next_event_tag),
            caches_valid(old(rti)) ==> caches_valid(final(rti)),
            flags_follow_caches(old(rti)) ==> flags_follow_caches(final(rti)),
            flags_sound(old(rti)) ==> flags_sound(final(rti)),
            propagation.tasks@ == if old(rti).scheduling_nodes[fed_id as int].num_upstream > 0 {
                seq![Task::Downstream { fed: fed_id, next: 0 }, Task::Consider { fed: fed_id }]
            } else {
                seq![Task::Downstream { fed: fed_id, next: 0 }]
            },
            propagation.visited@ == only_marked(
                old(rti).scheduling_nodes.len() as nat,
                fed_id as int,
            ),
            propagation.fits(final(rti)),
            tasks_steady(propagation.tasks@, final(rti)),
            sweep_in_order(final(rti).scheduling_nodes@, propagation.tasks@, propagation.visited@),
    {
        let ghost n = rti.scheduling_nodes.len() as int;
        let number_of_scheduling_nodes: usize = rti.scheduling_nodes.len();
        rti.scheduling_nodes[fed_id as usize].next_event = next_event_tag;
        proof {
            assert forall|i: int| 0 <= i < n implies (#[trigger] rti.scheduling_nodes[i]).wf(n)
                && rti.scheduling_nodes[i].id == i by {
                assert(old(rti).scheduling_nodes[i].wf(n));
            }
        }
        proof {
            if caches_valid(old(rti)) {
                lemma_same_graph(old(rti), rti);
                lemma_caches_stay_valid(old(rti), rti);
            }
            if flags_follow_caches(old(rti)) {
                lemma_flags_still_follow(old(rti), rti);
            }
            if flags_sound(old(rti)) {
                lemma_same_graph(old(rti), rti);
                lemma_flags_stay_sound(old(rti), rti);
            }
        }
        let num_upstream: i32 = rti.scheduling_nodes[fed_id as usize].num_upstream;
        let mut tasks: Vec<Task> = Vec::new();
        // The nodes downstream may now be granted a tag. To handle cycles,
        // the sweep marks the nodes it has visited.
        tasks.push(Task::Downstream { fed: fed_id, next: 0 });
        // A node without upstream nodes neither waits for a grant nor
        // expects one: it just advances.
        if num_upstream > 0 {
            tasks.push(Task::Consider { fed: fed_id });
        }
        let visited = fresh_marks(number_of_scheduling_nodes, fed_id as usize);
        let propagation = Propagation { tasks, visited };
        assert(propagation.tasks@ =~= if num_upstream > 0 {
            seq![Task::Downstream { fed: fed_id, next: 0 }, Task::Consider { fed: fed_id }]
        } else {
            seq![Task::Downstream { fed: fed_id, next: 0 }]
        });
        assert(propagation.tasks@[0] == (Task::Downstream { fed: fed_id, next: 0 }));
        assert forall|j: int| 0 <= j implies #[trigger] connection_pending(
            propagation.tasks@,
            fed_id as int,
            j,
        ) by {
            assert(propagation.tasks@[0] is Downstream);
        }
        propagation
    }

    /// Records the tag that node `fed_id` has reported complete and starts
    /// the propagation that follows: each node immediately downstream is
    /// considered for a grant, and after each the nodes downstream of it
    /// are, in a sweep of its own. The caller drives it with
    /// `Propagation::advance`.
    pub fn logical_tag_complete(rti: &mut RTICommon, fed_id: u16, completed: Tag) -> (propagation:
        Propagation)
        requires
            old(rti).wf(),
            fed_id < old(rti).scheduling_nodes.len(),
        ensures
            final(rti).wf(),
            completion_reported(old(rti), final(rti), fed_id as int, completed),
            caches_valid(old(rti)) ==> caches_valid(final(rti)),
            flags_follow_caches(old(rti)) ==> flags_follow_caches(final(rti)),
            flags_sound(old(rti)) ==> flags_sound(final(rti)),
            propagation.tasks@ == seq![Task::Completed { fed: fed_id, next: 0 }],
            propagation.visited@ == Seq::new(
                old(rti).scheduling_nodes.len() as nat,
                |i: int| false,
            ),
            propagation.fits(final(rti)),
            tasks_steady(propagation.tasks@, final(rti)),
            sweep_in_order(final(rti).scheduling_nodes@, propagation.tasks@, propagation.visited@),
    {
        let ghost n = rti.scheduling_nodes.len() as int;
        let number_of_scheduling_nodes: usize = rti.scheduling_nodes.len();
        rti.scheduling_nodes[fed_id as usize].completed = completed;
        proof {
            assert forall|i: int| 0 <= i < n implies (#[trigger] rti.scheduling_nodes[i]).wf(n)
                && rti.scheduling_nodes[i].id == i by {
                assert(old(rti).scheduling_nodes[i].wf(n));
            }
        }
        proof {
            if caches_valid(old(rti)) {
                lemma_same_graph(old(rti), rti);
                lemma_caches_stay_valid(old(rti), rti);
            }
            if flags_follow_caches(old(rti)) {
                lemma_flags_still_follow(old(rti), rti);
            }
            if flags_sound(old(rti)) {
                lemma_same_graph(old(rti), rti);
                lemma_flags_stay_sound(old(rti), rti);
            }
        }
        let mut tasks: Vec<Task> = Vec::new();
        tasks.push(Task::Completed { fed: fed_id, next: 0 });
        let visited = no_marks(number_of_scheduling_nodes);
        let propagation = Propagation { tasks, visited };
        assert(propagation.tasks@ =~= seq![Task::Completed { fed: fed_id, next: 0 }]);
        propagation
    }

    /// Starts a sweep of the nodes downstream of node `fed_id` that
    /// considers each for a grant: `fed_id` is marked as visited, and the
    /// nodes that `visited` marks already are passed over. The caller
    /// drives it with `Propagation::advance`.
    pub fn notify_downstream_advance_grant_if_safe(
        rti: &RTICommon,
        fed_id: u16,
        visited: Vec<bool>,
    ) -> (propagation: Propagation)
        requires
            rti.wf(),
            fed_id < rti.scheduling_nodes.len(),
            visited@.len() == rti.scheduling_nodes.len(),
        ensures
            propagation.tasks@ == seq![Task::Downstream { fed: fed_id, next: 0 }],
            propagation.visited@ == visited@.update(fed_id as int, true),
            propagation.fits(rti),
            tasks_steady(propagation.tasks@, rti),
            sweep_in_order(rti.scheduling_nodes@, Seq::<Task>::empty(), visited@)
                ==> sweep_in_order(
                rti.scheduling_nodes@,
                propagation.tasks@,
                propagation.visited@,
            ),
    {
        let ghost marks = visited@;
        let mut visited = visited;
        visited[fed_id as usize] = true;
        let mut tasks: Vec<Task> = Vec::new();
        tasks.push(Task::Downstream { fed: fed_id, next: 0 });
        let propagation = Propagation { tasks, visited };
        assert(propagation.tasks@ =~= seq![Task::Downstream { fed: fed_id, next: 0 }]);
        proof {
            let nodes = rti.scheduling_nodes@;
            if sweep_in_order(nodes, Seq::<Task>::empty(), marks) {
                assert forall|v: int, j: int|
                    0 <= v < nodes.len() && propagation.visited@[v] && 0 <= j
                        < nodes[v].downstream@.len() implies propagation.visited@[(
                #[trigger] nodes[v].downstream@[j]) as int] || connection_pending(
                    propagation.tasks@,
                    v,
                    j,
                ) by {
                    assert(rti.scheduling_nodes[v].wf(nodes.len() as int));
                    if v == fed_id {
                        assert(propagation.tasks@[0] is Downstream);
                    } else {
                        assert(marks[nodes[v].downstream@[j] as int] || connection_pending(
                            Seq::<Task>::empty(),
                            v,
                            j,
                        ));
                    }
                }
            }
        }
        propagation
    }

    /// Starts the propagation that decides whether node `fed_id` can be
    /// granted a tag and issues the grant. The caller drives it with
    /// `Propagation::advance`.
    pub fn notify_advance_grant_if_safe(rti: &RTICommon, fed_id: u16) -> (propagation: Propagation)
        requires
            rti.wf(),
            fed_id < rti.scheduling_nodes.len(),
        ensures
            propagation.tasks@ == seq![Task::Consider { fed: fed_id }],
            propagation.visited@ == Seq::new(rti.scheduling_nodes.len() as nat, |i: int| false),
            propagation.fits(rti),
            tasks_steady(propagation.tasks@, rti),
    {
        let mut tasks: Vec<Task> = Vec::new();
        tasks.push(Task::Consider { fed: fed_id });
        let visited = no_marks(rti.scheduling_nodes.len());
        let propagation = Propagation { tasks, visited };
        assert(propagation.tasks@ =~= seq![Task::Consider { fed: fed_id }]);
        propagation
    }

    /// Starts the propagation that issues a grant of `tag` to node
    /// `fed_id`: the grant is dropped if the node is not connected or the
    /// tag is not above its last granted and last provisionally granted
    /// tags; it waits for the start-time message where the node is pending;
    /// it is handed out for sending; and it is recorded as the last granted
    /// tag once delivered, while a node that it could not be delivered to
    /// is marked as not connected. The caller drives it with
    /// `Propagation::advance`.
    pub fn notify_tag_advance_grant(rti: &RTICommon, fed_id: u16, tag: Tag) -> (propagation:
        Propagation)
        requires
            rti.wf(),
            fed_id < rti.scheduling_nodes.len(),
        ensures
            propagation.tasks@ == seq![Task::Issue { fed: fed_id, tag, provisional: false }],
            propagation.visited@ == Seq::new(rti.scheduling_nodes.len() as nat, |i: int| false),
            propagation.fits(rti),
            tasks_steady(propagation.tasks@, rti),
    {
        let mut tasks: Vec<Task> = Vec::new();
        tasks.push(Task::Issue { fed: fed_id, tag, provisional: false });
        let visited = no_marks(rti.scheduling_nodes.len());
        let propagation = Propagation { tasks, visited };
        assert(propagation.tasks@ =~= seq![Task::Issue { fed: fed_id, tag, provisional: false }]);
        propagation
    }

    /// Starts the propagation that issues a provisional grant of `tag` to
    /// node `fed_id`, as `notify_tag_advance_grant` does for a grant, with
    /// the last provisionally granted tag in place of the last granted one,
    /// and that then carries the grant on to each connected upstream node
    /// whose earliest incoming message tag is not below `tag`, and so on
    /// upstream of those. The caller drives it with `Propagation::advance`.
    pub fn notify_provisional_tag_advance_grant(
        rti: &RTICommon,
        fed_id: u16,
        tag: Tag,
    ) -> (propagation: Propagation)
        requires
            rti.wf(),
            fed_id < rti.scheduling_nodes.len(),
        ensures
            propagation.tasks@ == seq![Task::Issue { fed: fed_id, tag, provisional: true }],
            propagation.visited@ == Seq::new(rti.scheduling_nodes.len() as nat, |i: int| false),
            propagation.fits(rti),
            tasks_steady(propagation.tasks@, rti),
    {
        let mut tasks: Vec<Task> = Vec::new();
        tasks.push(Task::Issue { fed: fed_id, tag, provisional: true });
        let visited = no_marks(rti.scheduling_nodes.len());
        let propagation = Propagation { tasks, visited };
        assert(propagation.tasks@ =~= seq![Task::Issue { fed: fed_id, tag, provisional: true }]);
        propagation
    }
}

/// No step of a steady propagation takes a grant back: the last granted
/// and the last provisionally granted tag of every node stay or rise, and
/// the step that records a delivered grant raises the one it records to
/// the tag of the grant. The completed tags stay, so a node whose completed
/// tag was not above its last granted tag is still such a node. The
/// propagation is steady after the step.
pub proof fn lemma_step_keeps_grants(
    before: &RTICommon,
    tasks: Seq<Task>,
    visited: Seq<bool>,
    start_time: Instant,
    delivered: bool,
    after: &RTICommon,
    tasks2: Seq<Task>,
    visited2: Seq<bool>,
    action: Action,
)
    requires
        before.wf(),
        tasks_fit(tasks, visited, before.scheduling_nodes.len() as int),
        tasks_steady(tasks, before),
        stepped(before, tasks, visited, start_time, delivered, after, tasks2, visited2, action),
    ensures
        grants_kept(before, after),
        tasks_steady(tasks2, after),
        forall|i: int|
            0 <= i < before.scheduling_nodes.len() && before.scheduling_nodes[i].completed.le(
                before.scheduling_nodes[i].last_granted,
            ) ==> (#[trigger] after.scheduling_nodes[i]).completed.le(
                after.scheduling_nodes[i].last_granted,
            ),
        delivered && tasks.len() > 0 ==> match tasks.last() {
            Task::Delivery { fed, tag, provisional } => if provisional {
                &&& before.scheduling_nodes[fed as int].last_provisionally_granted.lt(tag)
                &&& after.scheduling_nodes[fed as int].last_provisionally_granted == tag
            } else {
                &&& before.scheduling_nodes[fed as int].last_granted.lt(tag)
                &&& after.scheduling_nodes[fed as int].last_granted == tag
            },
            _ => true,
        },
{
    if tasks.len() > 0 {
        let rest = tasks.drop_last();
        assert forall|k: int| 0 <= k < rest.len() implies !grant_under_way(#[trigger] rest[k]) by {
            assert(rest[k] == tasks[k]);
        }
        assert(task_fed(tasks[tasks.len() - 1]) < before.scheduling_nodes.len());
        assert forall|k: int| 0 <= k < tasks2.len() - 1 implies !grant_under_way(
            #[trigger] tasks2[k],
        ) by {
            if k < rest.len() {
                assert(tasks2[k] == rest[k]);
            }
        }
    }
}

/// A grant goes out only to a node that has the start-time message: a
/// step asks for a grant to be sent only to a node in the state `Granted`
/// that the grant is not dropped for, whether the grant has waited or not.
/// It asks to wait for the start-time message only for a node in the state
/// `Pending`, and keeps the grant waiting.
pub proof fn lemma_grants_wait_for_the_start(
    before: &RTICommon,
    tasks: Seq<Task>,
    visited: Seq<bool>,
    start_time: Instant,
    delivered: bool,
    after: &RTICommon,
    tasks2: Seq<Task>,
    visited2: Seq<bool>,
    action: Action,
)
    requires
        stepped(before, tasks, visited, start_time, delivered, after, tasks2, visited2, action),
    ensures
        action matches Action::Send { fed_id, grant } ==> {
            &&& tasks.len() > 0
            &&& tasks.last() is Issue || tasks.last() is Rendezvous
            &&& task_fed(tasks.last()) == fed_id
            &&& before.scheduling_nodes[fed_id as int].state == SchedulingNodeState::Granted
            &&& !grant_dropped(before.scheduling_nodes[fed_id as int], grant.tag)
            &&& tasks2.last() == (Task::Delivery {
                fed: fed_id,
                tag: grant.tag,
                provisional: grant.is_provisional,
            })
        },
        action matches Action::AwaitStart { fed_id } ==> {
            &&& tasks.len() > 0
            &&& tasks.last() is Issue || tasks.last() is Rendezvous
            &&& task_fed(tasks.last()) == fed_id
            &&& before.scheduling_nodes[fed_id as int].state == SchedulingNodeState::Pending
            &&& tasks2.last() is Rendezvous
            &&& task_fed(tasks2.last()) == fed_id
        },
{
}

/// A report of a next event keeps every completed tag that was not above
/// the last granted tag of its node so, and a report of a completed tag
/// does where the tag reported is not above the last granted tag of the
/// node that reports it.
pub proof fn lemma_reports_keep_completed_below_granted(
    before: &RTICommon,
    after: &RTICommon,
    fed: int,
    tag: Tag,
)
    requires
        0 <= fed < before.scheduling_nodes.len(),
        next_event_reported(before, after, fed, tag) || (completion_reported(
            before,
            after,
            fed,
            tag,
        ) && tag.le(before.scheduling_nodes[fed].last_granted)),
    ensures
        forall|i: int|
            0 <= i < before.scheduling_nodes.len() && before.scheduling_nodes[i].completed.le(
                before.scheduling_nodes[i].last_granted,
            ) ==> (#[trigger] after.scheduling_nodes[i]).completed.le(
                after.scheduling_nodes[i].last_granted,
            ),
{
}

/// A step changes the state of no node but one that a grant could not be
/// delivered to, which is not connected afterwards, as a node may become
/// from any other state; and it changes no connection.
pub proof fn lemma_step_only_disconnects(
    before: &RTICommon,
    tasks: Seq<Task>,
    visited: Seq<bool>,
    start_time: Instant,
    delivered: bool,
    after: &RTICommon,
    tasks2: Seq<Task>,
    visited2: Seq<bool>,
    action: Action,
)
    requires
        stepped(before, tasks, visited, start_time, delivered, after, tasks2, visited2, action),
    ensures
        after.same_frame(before),
        forall|i: int|
            0 <= i < before.scheduling_nodes.len() ==> {
                let b = before.scheduling_nodes[i];
                let a = #[trigger] after.scheduling_nodes[i];
                &&& same_links(a, b)
                &&& a.state == b.state || {
                    &&& a.state == SchedulingNodeState::NotConnected
                    &&& !delivered
                    &&& tasks.len() > 0
                    &&& tasks.last() is Delivery
                    &&& task_fed(tasks.last()) == i
                }
                &&& a.state == b.state || state_follows(b.state, a.state)
            },
{
}

/// A step keeps the registry well formed and the tasks fit for it.
pub proof fn lemma_step_keeps_state_in_order(
    before: &RTICommon,
    tasks: Seq<Task>,
    visited: Seq<bool>,
    start_time: Instant,
    delivered: bool,
    after: &RTICommon,
    tasks2: Seq<Task>,
    visited2: Seq<bool>,
    action: Action,
)
    requires
        before.wf(),
        tasks_fit(tasks, visited, before.scheduling_nodes.len() as int),
        stepped(before, tasks, visited, start_time, delivered, after, tasks2, visited2, action),
    ensures
        after.wf(),
        after.scheduling_nodes.len() == before.scheduling_nodes.len(),
        tasks_fit(tasks2, visited2, after.scheduling_nodes.len() as int),
{
    let n = before.scheduling_nodes.len() as int;
    assert forall|i: int| 0 <= i < n implies (#[trigger] after.scheduling_nodes[i]).wf(n)
        && after.scheduling_nodes[i].id == i by {
        assert(before.scheduling_nodes[i].wf(n));
        assert(same_links(after.scheduling_nodes[i], before.scheduling_nodes[i]));
    }
    if tasks.len() > 0 {
        let rest = tasks.drop_last();
        let fed = task_fed(tasks[tasks.len() - 1]);
        assert(fed < n);
        assert(before.scheduling_nodes[fed as int].wf(n));
        assert forall|k: int| 0 <= k < tasks2.len() implies task_fed(#[trigger] tasks2[k]) < n by {
            if k < rest.len() {
                assert(tasks2[k] == rest[k]);
                assert(rest[k] == tasks[k]);
            }
        }
    }
}

/// No step of a propagation spoils a cache: where every built cache held
/// the table of its node before the step, it does so after.
pub proof fn lemma_step_keeps_caches_valid(
    before: &RTICommon,
    tasks: Seq<Task>,
    visited: Seq<bool>,
    start_time: Instant,
    delivered: bool,
    after: &RTICommon,
    tasks2: Seq<Task>,
    visited2: Seq<bool>,
    action: Action,
)
    requires
        before.wf(),
        tasks_fit(tasks, visited, before.scheduling_nodes.len() as int),
        caches_valid(before),
        stepped(before, tasks, visited, start_time, delivered, after, tasks2, visited2, action),
    ensures
        caches_valid(after),
{
    if tasks.len() > 0 {
        assert(task_fed(tasks[tasks.len() - 1]) < before.scheduling_nodes.len());
        match tasks.last() {
            Task::Consider { fed } => {
                lemma_decision_keeps_caches_valid(before, after, fed as int, start_time);
            },
            Task::Upstream { fed, tag, next } => {
                let node = before.scheduling_nodes[fed as int];
                assert(node.wf(before.scheduling_nodes.len() as int));
                let connected = next < node.upstream@.len() && {
                    let u = node.upstream@[next as int] as int;
                    before.scheduling_nodes[u].state != SchedulingNodeState::NotConnected
                };
                if connected {
                    lemma_decision_keeps_caches_valid(
                        before,
                        after,
                        node.upstream@[next as int] as int,
                        start_time,
                    );
                } else {
                    lemma_same_graph(before, after);
                    lemma_caches_stay_valid(before, after);
                }
            },
            Task::Delivery { fed, tag, provisional } => {
                if delivered {
                    lemma_same_graph(before, after);
                    lemma_caches_stay_valid(before, after);
                }
            },
            _ => {
                lemma_same_graph(before, after);
                lemma_caches_stay_valid(before, after);
            },
        }
    } else {
        lemma_same_graph(before, after);
        lemma_caches_stay_valid(before, after);
    }
}

/// No step of a propagation parts the flags from the caches: where the
/// flags of every node followed its cache before the step, they do so
/// after.
pub proof fn lemma_step_keeps_flags(
    before: &RTICommon,
    tasks: Seq<Task>,
    visited: Seq<bool>,
    start_time: Instant,
    delivered: bool,
    after: &RTICommon,
    tasks2: Seq<Task>,
    visited2: Seq<bool>,
    action: Action,
)
    requires
        before.wf(),
        tasks_fit(tasks, visited, before.scheduling_nodes.len() as int),
        flags_follow_caches(before),
        stepped(before, tasks, visited, start_time, delivered, after, tasks2, visited2, action),
    ensures
        flags_follow_caches(after),
{
    if tasks.len() > 0 {
        assert(task_fed(tasks[tasks.len() - 1]) < before.scheduling_nodes.len());
        match tasks.last() {
            Task::Consider { fed } => {
                lemma_decision_keeps_flags(before, after, fed as int, start_time);
            },
            Task::Upstream { fed, tag, next } => {
                let node = before.scheduling_nodes[fed as int];
                assert(node.wf(before.scheduling_nodes.len() as int));
                let connected = next < node.upstream@.len() && {
                    let u = node.upstream@[next as int] as int;
                    before.scheduling_nodes[u].state != SchedulingNodeState::NotConnected
                };
                if connected {
                    lemma_decision_keeps_flags(
                        before,
                        after,
                        node.upstream@[next as int] as int,
                        start_time,
                    );
                } else {
                    lemma_flags_still_follow(before, after);
                }
            },
            Task::Delivery { fed, tag, provisional } => {
                if delivered {
                    lemma_flags_still_follow(before, after);
                }
            },
            _ => {
                lemma_flags_still_follow(before, after);
            },
        }
    } else {
        lemma_flags_still_follow(before, after);
    }
}

/// No step of a propagation makes a flag say more than there is, but the
/// step that records a failed delivery: the node that has left may have
/// been part of a cycle.
pub proof fn lemma_step_keeps_flags_sound(
    before: &RTICommon,
    tasks: Seq<Task>,
    visited: Seq<bool>,
    start_time: Instant,
    delivered: bool,
    after: &RTICommon,
    tasks2: Seq<Task>,
    visited2: Seq<bool>,
    action: Action,
)
    requires
        before.wf(),
        tasks_fit(tasks, visited, before.scheduling_nodes.len() as int),
        flags_sound(before),
        stepped(before, tasks, visited, start_time, delivered, after, tasks2, visited2, action),
        delivered || tasks.len() == 0 || !(tasks.last() is Delivery),
    ensures
        flags_sound(after),
{
    if tasks.len() > 0 {
        assert(task_fed(tasks[tasks.len() - 1]) < before.scheduling_nodes.len());
        match tasks.last() {
            Task::Consider { fed } => {
                lemma_decision_keeps_flags_sound(before, after, fed as int, start_time);
            },
            Task::Upstream { fed, tag, next } => {
                let node = before.scheduling_nodes[fed as int];
                assert(node.wf(before.scheduling_nodes.len() as int));
                let connected = next < node.upstream@.len() && {
                    let u = node.upstream@[next as int] as int;
                    before.scheduling_nodes[u].state != SchedulingNodeState::NotConnected
                };
                if connected {
                    lemma_decision_keeps_flags_sound(
                        before,
                        after,
                        node.upstream@[next as int] as int,
                        start_time,
                    );
                } else {
                    lemma_same_graph(before, after);
                    lemma_flags_stay_sound(before, after);
                }
            },
            _ => {
                lemma_same_graph(before, after);
                lemma_flags_stay_sound(before, after);
            },
        }
    } else {
        lemma_same_graph(before, after);
        lemma_flags_stay_sound(before, after);
    }
}

/// What is left of a list of `len` connections from position `next` on.
pub open spec fn remaining(len: nat, next: usize) -> nat {
    if next < len {
        (len - next) as nat
    } else {
        0
    }
}

/// The number of tasks that a task can still turn into without anything
/// being asked of the caller, sweeps downstream left aside.
pub open spec fn task_weight(task: Task, nodes: Seq<SchedulingNode>) -> nat {
    match task {
        Task::Consider { .. } => 2,
        Task::Issue { .. } => 1,
        Task::Rendezvous { .. } => 1,
        Task::Delivery { fed, .. } => 2 * nodes[fed as int].upstream@.len() + 2,
        Task::Upstream { fed, next, .. } => 2 * remaining(nodes[fed as int].upstream@.len(), next)
            + 1,
        Task::Downstream { fed, next } => remaining(nodes[fed as int].downstream@.len(), next) + 1,
        Task::Completed { .. } => 0,
    }
}

/// The number of sweeps that a task can still start.
pub open spec fn task_sweeps(task: Task, nodes: Seq<SchedulingNode>) -> nat {
    match task {
        Task::Completed { fed, next } => remaining(nodes[fed as int].downstream@.len(), next) + 1,
        _ => 0,
    }
}

/// The weights of all tasks together.
pub open spec fn tasks_weight(tasks: Seq<Task>, nodes: Seq<SchedulingNode>) -> nat
    decreases tasks.len(),
{
    if tasks.len() == 0 {
        0
    } else {
        tasks_weight(tasks.drop_last(), nodes) + task_weight(tasks.last(), nodes)
    }
}

/// The sweeps that all tasks together can still start.
pub open spec fn tasks_sweeps(tasks: Seq<Task>, nodes: Seq<SchedulingNode>) -> nat
    decreases tasks.len(),
{
    if tasks.len() == 0 {
        0
    } else {
        tasks_sweeps(tasks.drop_last(), nodes) + task_sweeps(tasks.last(), nodes)
    }
}

/// Whether a propagation is closer to asking something of its caller
/// after a step than before it: it can start fewer sweeps, or as many while
/// its sweep has fewer nodes left to mark, or as many of both while its
/// tasks weigh less.
pub open spec fn closer_to_action(
    before: &RTICommon,
    tasks: Seq<Task>,
    visited: Seq<bool>,
    after: &RTICommon,
    tasks2: Seq<Task>,
    visited2: Seq<bool>,
) -> bool {
    let sweeps = tasks_sweeps(tasks, before.scheduling_nodes@);
    let sweeps2 = tasks_sweeps(tasks2, after.scheduling_nodes@);
    let unmarked = unvisited(visited);
    let unmarked2 = unvisited(visited2);
    let weight = tasks_weight(tasks, before.scheduling_nodes@);
    let weight2 = tasks_weight(tasks2, after.scheduling_nodes@);
    sweeps2 < sweeps || (sweeps2 == sweeps && (unmarked2 < unmarked || (unmarked2 == unmarked
        && weight2 < weight)))
}

proof fn lemma_weights_push(tasks: Seq<Task>, task: Task, nodes: Seq<SchedulingNode>)
    ensures
        tasks_weight(tasks.push(task), nodes) == tasks_weight(tasks, nodes) + task_weight(
            task,
            nodes,
        ),
        tasks_sweeps(tasks.push(task), nodes) == tasks_sweeps(tasks, nodes) + task_sweeps(
            task,
            nodes,
        ),
{
    assert(tasks.push(task).drop_last() =~= tasks);
}

proof fn lemma_weights_same_links(
    tasks: Seq<Task>,
    a: Seq<SchedulingNode>,
    b: Seq<SchedulingNode>,
)
    requires
        a.len() == b.len(),
        forall|k: int| 0 <= k < tasks.len() ==> task_fed(#[trigger] tasks[k]) < a.len(),
        forall|i: int| 0 <= i < a.len() ==> same_links(#[trigger] a[i], b[i]),
    ensures
        tasks_weight(tasks, a) == tasks_weight(tasks, b),
        tasks_sweeps(tasks, a) == tasks_sweeps(tasks, b),
    decreases tasks.len(),
{
    if tasks.len() > 0 {
        let rest = tasks.drop_last();
        assert forall|k: int|
            0 <= k < rest.len() implies task_fed(#[trigger] rest[k]) < a.len() by {
            assert(rest[k] == tasks[k]);
        }
        lemma_weights_same_links(rest, a, b);
        let fed = task_fed(tasks[tasks.len() - 1]);
        assert(same_links(a[fed as int], b[fed as int]));
    }
}

/// A step that asks nothing of the caller brings the propagation closer to
/// one that does.
pub proof fn lemma_step_comes_closer(
    before: &RTICommon,
    tasks: Seq<Task>,
    visited: Seq<bool>,
    start_time: Instant,
    delivered: bool,
    after: &RTICommon,
    tasks2: Seq<Task>,
    visited2: Seq<bool>,
    action: Action,
)
    requires
        before.wf(),
        tasks_fit(tasks, visited, before.scheduling_nodes.len() as int),
        stepped(before, tasks, visited, start_time, delivered, after, tasks2, visited2, action),
        action == Action::Continue,
    ensures
        closer_to_action(before, tasks, visited, after, tasks2, visited2),
{
    let nodes = before.scheduling_nodes@;
    let nodes2 = after.scheduling_nodes@;
    let rest = tasks.drop_last();
    let top = tasks.last();
    let fed = task_fed(top);
    assert(task_fed(tasks[tasks.len() - 1]) < nodes.len());
    assert(before.scheduling_nodes[fed as int].wf(nodes.len() as int));
    assert forall|k: int|
        0 <= k < rest.len() implies task_fed(#[trigger] rest[k]) < nodes.len() by {
        assert(rest[k] == tasks[k]);
    }
    assert forall|i: int|
        0 <= i < nodes.len() implies same_links(#[trigger] nodes[i], nodes2[i]) by {
        assert(same_links(after.scheduling_nodes[i], before.scheduling_nodes[i]));
    }
    lemma_weights_same_links(rest, nodes, nodes2);
    assert(same_links(nodes[fed as int], nodes2[fed as int]));
    match top {
        Task::Consider { fed } => {
            let grant = decision_of(before, after, fed as int, start_time);
            lemma_weights_push(
                rest,
                Task::Issue { fed, tag: grant.tag, provisional: grant.is_provisional },
                nodes2,
            );
        },
        Task::Issue { fed, tag, provisional } => {},
        Task::Rendezvous { fed, tag, provisional } => {},
        Task::Delivery { fed, tag, provisional } => {
            lemma_weights_push(rest, Task::Upstream { fed, tag, next: 0 }, nodes2);
        },
        Task::Upstream { fed, tag, next } => {
            let node = before.scheduling_nodes[fed as int];
            if next < node.upstream@.len() {
                let u = node.upstream@[next as int];
                let resumed = rest.push(Task::Upstream { fed, tag, next: (next + 1) as usize });
                lemma_weights_push(
                    rest,
                    Task::Upstream { fed, tag, next: (next + 1) as usize },
                    nodes2,
                );
                lemma_weights_push(
                    resumed,
                    Task::Issue { fed: u as u16, tag, provisional: true },
                    nodes2,
                );
            }
        },
        Task::Downstream { fed, next } => {
            let node = before.scheduling_nodes[fed as int];
            if next < node.downstream@.len() {
                let d = node.downstream@[next as int];
                let resumed = rest.push(Task::Downstream { fed, next: (next + 1) as usize });
                lemma_weights_push(
                    rest,
                    Task::Downstream { fed, next: (next + 1) as usize },
                    nodes2,
                );
                if !visited[d as int] {
                    let deeper = resumed.push(Task::Downstream { fed: d as u16, next: 0 });
                    lemma_weights_push(
                        resumed,
                        Task::Downstream { fed: d as u16, next: 0 },
                        nodes2,
                    );
                    lemma_weights_push(deeper, Task::Consider { fed: d as u16 }, nodes2);
                    crate::transitive::lemma_unvisited_mark(visited, d as int);
                }
            }
        },
        Task::Completed { fed, next } => {
            let node = before.scheduling_nodes[fed as int];
            if next < node.downstream@.len() {
                let d = node.downstream@[next as int];
                let resumed = rest.push(Task::Completed { fed, next: (next + 1) as usize });
                let deeper = resumed.push(Task::Downstream { fed: d as u16, next: 0 });
                lemma_weights_push(
                    rest,
                    Task::Completed { fed, next: (next + 1) as usize },
                    nodes2,
                );
                lemma_weights_push(resumed, Task::Downstream { fed: d as u16, next: 0 }, nodes2);
                lemma_weights_push(deeper, Task::Consider { fed: d as u16 }, nodes2);
            }
        },
    }
}

/// A registry, tasks and marks: the state of a propagation between two
/// steps.
pub struct PropagationState {
    pub rti: RTICommon,
    pub tasks: Seq<Task>,
    pub visited: Seq<bool>,
}

/// Whether `trace` is a run of steps that ends with the first step that
/// asks something of the caller, which is `action`: each state follows
/// from the one before it by a step, and every step but the last returns
/// `Action::Continue`.
pub open spec fn is_run(
    trace: Seq<PropagationState>,
    start_time: Instant,
    delivered: bool,
    action: Action,
) -> bool {
    &&& trace.len() >= 2
    &&& action != Action::Continue
    &&& forall|k: int|
        0 <= k < trace.len() - 1 ==> stepped(
            &(#[trigger] trace[k]).rti,
            trace[k].tasks,
            trace[k].visited,
            start_time,
            delivered,
            &trace[k + 1].rti,
            trace[k + 1].tasks,
            trace[k + 1].visited,
            if k == trace.len() - 2 {
                action
            } else {
                Action::Continue
            },
        )
}

/// Whether the state `after` and the action `action` are what the steps
/// from the state `before` lead to, up to the first step that asks
/// something of the caller.
pub open spec fn advanced(
    before: PropagationState,
    start_time: Instant,
    delivered: bool,
    after: PropagationState,
    action: Action,
) -> bool {
    exists|trace: Seq<PropagationState>|
        #[trigger] is_run(trace, start_time, delivered, action) && trace[0] == before
            && trace.last() == after
}

impl Propagation {
    /// The state of the propagation with the registry `rti`.
    pub open spec fn state(&self, rti: &RTICommon) -> PropagationState {
        PropagationState { rti: *rti, tasks: self.tasks@, visited: self.visited@ }
    }

    /// Takes the steps of the propagation up to the first that asks
    /// something of the caller, and returns what it asks: to wait for the
    /// start-time message, to send a grant, or nothing more where the
    /// propagation is over. `delivered` tells whether the grant of the
    /// `Action::Send` before was delivered.
    ///
    /// As long as nothing else changes the registry between the steps, no
    /// node loses a grant.
    pub fn advance(&mut self, rti: &mut RTICommon, start_time: Instant, delivered: bool) -> (action:
        Action)
        requires
            old(rti).wf(),
            old(self).fits(old(rti)),
        ensures
            final(rti).wf(),
            final(self).fits(final(rti)),
            action != Action::Continue,
            advanced(
                old(self).state(old(rti)),
                start_time,
                delivered,
                final(self).state(final(rti)),
                action,
            ),
            caches_valid(old(rti)) ==> caches_valid(final(rti)),
            flags_follow_caches(old(rti)) ==> flags_follow_caches(final(rti)),
            delivered && flags_sound(old(rti)) ==> flags_sound(final(rti)),
            tasks_steady(old(self).tasks@, old(rti)) ==> {
                &&& tasks_steady(final(self).tasks@, final(rti))
                &&& grants_kept(old(rti), final(rti))
            },
            sweep_in_order(old(rti).scheduling_nodes@, old(self).tasks@, old(self).visited@)
                ==> sweep_in_order(
                final(rti).scheduling_nodes@,
                final(self).tasks@,
                final(self).visited@,
            ),
    {
        let ghost first = self.state(rti);
        let ghost mut trace: Seq<PropagationState> = seq![first];
        loop
            invariant
                rti.wf(),
                self.fits(rti),
                first == old(self).state(old(rti)),
                trace.len() >= 1,
                trace[0] == first,
                trace.last() == self.state(rti),
                forall|k: int|
                    0 <= k < trace.len() - 1 ==> stepped(
                        &(#[trigger] trace[k]).rti,
                        trace[k].tasks,
                        trace[k].visited,
                        start_time,
                        delivered,
                        &trace[k + 1].rti,
                        trace[k + 1].tasks,
                        trace[k + 1].visited,
                        Action::Continue,
                    ),
                caches_valid(&first.rti) ==> caches_valid(rti),
                flags_follow_caches(&first.rti) ==> flags_follow_caches(rti),
                delivered && flags_sound(&first.rti) ==> flags_sound(rti),
                tasks_steady(first.tasks, &first.rti) ==> tasks_steady(self.tasks@, rti)
                    && grants_kept(&first.rti, rti),
                sweep_in_order(first.rti.scheduling_nodes@, first.tasks, first.visited)
                    ==> sweep_in_order(rti.scheduling_nodes@, self.tasks@, self.visited@),
            decreases
                    tasks_sweeps(self.tasks@, rti.scheduling_nodes@),
                    unvisited(self.visited@),
                    tasks_weight(self.tasks@, rti.scheduling_nodes@),
        {
            let ghost before = self.state(rti);
            let action = self.step(rti, start_time, delivered);
            let ghost after = self.state(rti);
            proof {
                if delivered && flags_sound(&before.rti) {
                    lemma_step_keeps_flags_sound(
                        &before.rti,
                        before.tasks,
                        before.visited,
                        start_time,
                        delivered,
                        &after.rti,
                        after.tasks,
                        after.visited,
                        action,
                    );
                }
                if flags_follow_caches(&before.rti) {
                    lemma_step_keeps_flags(
                        &before.rti,
                        before.tasks,
                        before.visited,
                        start_time,
                        delivered,
                        &after.rti,
                        after.tasks,
                        after.visited,
                        action,
                    );
                }
                if caches_valid(&before.rti) {
                    lemma_step_keeps_caches_valid(
                        &before.rti,
                        before.tasks,
                        before.visited,
                        start_time,
                        delivered,
                        &after.rti,
                        after.tasks,
                        after.visited,
                        action,
                    );
                }
                if sweep_in_order(before.rti.scheduling_nodes@, before.tasks, before.visited) {
                    lemma_step_keeps_sweep_in_order(
                        &before.rti,
                        before.tasks,
                        before.visited,
                        start_time,
                        delivered,
                        &after.rti,
                        after.tasks,
                        after.visited,
                        action,
                    );
                }
                if tasks_steady(before.tasks, &before.rti) {
                    lemma_step_keeps_grants(
                        &before.rti,
                        before.tasks,
                        before.visited,
                        start_time,
                        delivered,
                        &after.rti,
                        after.tasks,
                        after.visited,
                        action,
                    );
                }
                let longer = trace.push(after);
                assert(longer[trace.len() - 1] == before);
                assert forall|k: int| 0 <= k < longer.len() - 2 implies stepped(
                    &(#[trigger] longer[k]).rti,
                    longer[k].tasks,
                    longer[k].visited,
                    start_time,
                    delivered,
                    &longer[k + 1].rti,
                    longer[k + 1].tasks,
                    longer[k + 1].visited,
                    Action::Continue,
                ) by {
                    assert(longer[k] == trace[k]);
                    assert(longer[k + 1] == trace[k + 1]);
                }
                trace = longer;
            }
            match action {
                Action::Continue => {
                    proof {
                        lemma_step_comes_closer(
                            &before.rti,
                            before.tasks,
                            before.visited,
                            start_time,
                            delivered,
                            &after.rti,
                            after.tasks,
                            after.visited,
                            action,
                        );
                    }
                },
                _ => {
                    proof {
                        assert(is_run(trace, start_time, delivered, action));
                    }
                    return action;
                },
            }
        }
    }
}

} // verus!
