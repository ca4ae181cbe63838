//! The scheduling nodes coordinated by the RTI and the registry that holds
//! them.

use crate::min_delays::{
    caches_valid, flags_follow_caches, lemma_caches_stay_valid, lemma_flags_still_follow,
    lemma_same_graph,
};
use crate::tag::{Interval, Tag};
use vstd::prelude::*;

verus! {

/// Flag bit: the node lies on a cycle whose connections all carry no delay.
pub const IS_IN_ZERO_DELAY_CYCLE: i32 = 1;

/// Flag bit: the node lies on a cycle.
pub const IS_IN_CYCLE: i32 = 2;

/// The greatest number of scheduling nodes a registry can hold: every node
/// is addressed by a 16-bit id.
pub const MAX_SCHEDULING_NODES: usize = 65536;

/// Mode of execution of a federate.
#[derive(Clone, Copy, PartialEq, Eq, Structural, Debug)]
pub enum ExecutionMode {
    Fast,
    Realtime,
}

/// State of a scheduling node: whether its federate is connected, and
/// whether it has been sent the start time.
#[derive(Clone, Copy, PartialEq, Eq, Structural, Debug)]
pub enum SchedulingNodeState {
    /// The scheduling node has not connected.
    NotConnected,
    /// The node is connected and has been sent the start time.
    Granted,
    /// The node is connected and the start-time handshake is not finished.
    Pending,
}

/// Whether a scheduling node can pass from the state `from` to the state
/// `to`: a node that is not connected becomes pending when its federate
/// connects, a pending node is granted once the start-time message has
/// gone out, and a pending or granted node becomes not connected when its
/// federate leaves or cannot be reached.
pub open spec fn state_follows(from: SchedulingNodeState, to: SchedulingNodeState) -> bool {
    match (from, to) {
        (SchedulingNodeState::NotConnected, SchedulingNodeState::Pending) => true,
        (SchedulingNodeState::Pending, SchedulingNodeState::Granted) => true,
        (SchedulingNodeState::Granted, SchedulingNodeState::NotConnected) => true,
        (SchedulingNodeState::Pending, SchedulingNodeState::NotConnected) => true,
        _ => false,
    }
}

/// Minimum delay from one upstream node.
#[derive(Debug)]
pub struct MinimumDelay {
    /// Id of the upstream node.
    pub id: i32,
    /// Least accumulated delay over the paths from that node.
    pub min_delay: Tag,
}

impl MinimumDelay {
    pub fn new(id: i32, min_delay: Tag) -> (result: MinimumDelay)
        ensures
            result.id == id,
            result.min_delay == min_delay,
    {
        MinimumDelay { id, min_delay }
    }

    pub fn id(&self) -> (result: i32)
        ensures
            result == self.id,
    {
        self.id
    }

    pub fn min_delay(&self) -> (result: &Tag)
        ensures
            *result == self.min_delay,
    {
        &self.min_delay
    }
}

/// Information about one scheduling node coordinated by the RTI: its tags,
/// its state, and its connections to other scheduling nodes. Connections
/// that impose no scheduling constraint are not recorded.
#[derive(Debug)]
pub struct SchedulingNode {
    /// Id of this scheduling node.
    pub id: u16,
    /// The greatest tag reported complete (`NEVER` before the first report).
    pub completed: Tag,
    /// The greatest tag granted so far (`NEVER` if none).
    pub last_granted: Tag,
    /// The greatest tag provisionally granted so far (`NEVER` if none).
    pub last_provisionally_granted: Tag,
    /// The latest next-event tag reported (`NEVER` if none).
    pub next_event: Tag,
    pub state: SchedulingNodeState,
    /// Ids of the upstream nodes.
    pub upstream: Vec<i32>,
    /// Delay of the connection from each upstream node.
    pub upstream_delay: Vec<Interval>,
    pub num_upstream: i32,
    /// Ids of the downstream nodes.
    pub downstream: Vec<i32>,
    pub num_downstream: i32,
    pub mode: ExecutionMode,
    /// Cached minimum delays from the transitive upstream nodes, in
    /// ascending order of id. Empty while the cache is not built.
    pub min_delays: Vec<MinimumDelay>,
    pub num_min_delays: u64,
    /// Union of `IS_IN_ZERO_DELAY_CYCLE` and `IS_IN_CYCLE`.
    pub flags: i32,
}

impl SchedulingNode {
    /// Whether the node is consistent as a member of a registry of `n`
    /// nodes: the recorded counts are the lengths of the lists, and every
    /// id in a list addresses a node of the registry.
    pub open spec fn wf(&self, n: int) -> bool {
        &&& self.upstream.len() == self.upstream_delay.len()
        &&& self.num_upstream == self.upstream.len()
        &&& forall|j: int| 0 <= j < self.upstream.len() ==> 0 <= #[trigger] self.upstream[j] < n
        &&& self.num_downstream == self.downstream.len()
        &&& forall|j: int|
            0 <= j < self.downstream.len() ==> 0 <= #[trigger] self.downstream[j] < n
        &&& self.num_min_delays == self.min_delays.len()
        &&& forall|k: int|
            0 <= k < self.min_delays.len() ==> 0 <= (#[trigger] self.min_delays[k]).id < n
    }

    /// Whether the node is as `new` makes it, but for its id.
    pub open spec fn is_fresh(&self) -> bool {
        &&& self.completed == Tag::never()
        &&& self.last_granted == Tag::never()
        &&& self.last_provisionally_granted == Tag::never()
        &&& self.next_event == Tag::never()
        &&& self.state == SchedulingNodeState::NotConnected
        &&& self.upstream@ == Seq::<i32>::empty()
        &&& self.upstream_delay@ == Seq::<Interval>::empty()
        &&& self.num_upstream == 0
        &&& self.downstream@ == Seq::<i32>::empty()
        &&& self.num_downstream == 0
        &&& self.mode == ExecutionMode::Realtime
        &&& self.min_delays@ == Seq::<MinimumDelay>::empty()
        &&& self.num_min_delays == 0
        &&& self.flags == 0
    }

    pub fn new() -> (result: SchedulingNode)
        ensures
            result.id == 0,
            result.is_fresh(),
    {
        SchedulingNode {
            id: 0,
            completed: Tag::never_tag(),
            last_granted: Tag::never_tag(),
            last_provisionally_granted: Tag::never_tag(),
            next_event: Tag::never_tag(),
            state: SchedulingNodeState::NotConnected,
            upstream: Vec::new(),
            upstream_delay: Vec::new(),
            num_upstream: 0,
            downstream: Vec::new(),
            num_downstream: 0,
            mode: ExecutionMode::Realtime,
            min_delays: Vec::new(),
            num_min_delays: 0,
            flags: 0,
        }
    }

    pub fn initialize_scheduling_node(&mut self, id: u16)
        ensures
            *final(self) == (SchedulingNode { id, ..*old(self) }),
    {
        self.id = id;
    }

    pub fn id(&self) -> (result: u16)
        ensures
            result == self.id,
    {
        self.id
    }

    pub fn completed(&self) -> (result: Tag)
        ensures
            result == self.completed,
    {
        self.completed
    }

    pub fn last_granted(&self) -> (result: Tag)
        ensures
            result == self.last_granted,
    {
        self.last_granted
    }

    pub fn last_provisionally_granted(&self) -> (result: Tag)
        ensures
            result == self.last_provisionally_granted,
    {
        self.last_provisionally_granted
    }

    pub fn next_event(&self) -> (result: Tag)
        ensures
            result == self.next_event,
    {
        self.next_event
    }

    pub fn state(&self) -> (result: SchedulingNodeState)
        ensures
            result == self.state,
    {
        self.state
    }

    pub fn upstream(&self) -> (result: &Vec<i32>)
        ensures
            *result == self.upstream,
    {
        &self.upstream
    }

    pub fn upstream_delay(&self) -> (result: &Vec<Interval>)
        ensures
            *result == self.upstream_delay,
    {
        &self.upstream_delay
    }

    pub fn num_upstream(&self) -> (result: i32)
        ensures
            result == self.num_upstream,
    {
        self.num_upstream
    }

    pub fn downstream(&self) -> (result: &Vec<i32>)
        ensures
            *result == self.downstream,
    {
        &self.downstream
    }

    pub fn num_downstream(&self) -> (result: i32)
        ensures
            result == self.num_downstream,
    {
        self.num_downstream
    }

    /// The cached minimum delays, for the caller to read or to rebuild.
    pub fn min_delays(&mut self) -> (result: &mut Vec<MinimumDelay>)
        ensures
            *result == old(self).min_delays,
            *final(self) == (SchedulingNode { min_delays: *final(result), ..*old(self) }),
    {
        &mut self.min_delays
    }

    pub fn num_min_delays(&self) -> (result: u64)
        ensures
            result == self.num_min_delays,
    {
        self.num_min_delays
    }

    pub fn flags(&self) -> (result: i32)
        ensures
            result == self.flags,
    {
        self.flags
    }

    pub fn set_last_granted(&mut self, tag: Tag)
        ensures
            *final(self) == (SchedulingNode { last_granted: tag, ..*old(self) }),
    {
        self.last_granted = tag;
    }

    pub fn set_last_provisionally_granted(&mut self, tag: Tag)
        ensures
            *final(self) == (SchedulingNode { last_provisionally_granted: tag, ..*old(self) }),
    {
        self.last_provisionally_granted = tag;
    }

    pub fn set_next_event(&mut self, next_event_tag: Tag)
        ensures
            *final(self) == (SchedulingNode { next_event: next_event_tag, ..*old(self) }),
    {
        self.next_event = next_event_tag;
    }

    /// Sets the state of the node. Where this connects or disconnects the
    /// node, its cache of minimum delays is emptied: the table of a node
    /// that is not connected is empty. The caches of the other nodes of a
    /// registry are out of the reach of this function: `RTICommon::set_state`
    /// empties them all.
    pub fn set_state(&mut self, state: SchedulingNodeState)
        ensures
            final(self).state == state,
            same_links(*final(self), *old(self)),
            same_tags(*final(self), *old(self)),
            final(self).flags == old(self).flags,
            if (old(self).state == SchedulingNodeState::NotConnected) != (state
                == SchedulingNodeState::NotConnected) {
                cache_empty(*final(self))
            } else {
                same_cache(*final(self), *old(self))
            },
    {
        let was_connected = self.state != SchedulingNodeState::NotConnected;
        let is_connected = state != SchedulingNodeState::NotConnected;
        self.state = state;
        if was_connected != is_connected {
            self.drop_min_delays();
        }
    }

    /// Empties the cache of minimum delays of the node, so that it is built
    /// anew when it is next needed.
    pub fn drop_min_delays(&mut self)
        ensures
            cache_dropped(*old(self), *final(self)),
    {
        self.min_delays.clear();
        self.num_min_delays = 0;
    }

    /// Inserts an upstream id at position `idx`, moving the later ids up,
    /// and empties the cache of minimum delays of the node: its connections
    /// have changed. The caches of the nodes downstream in a registry are
    /// out of the reach of this function: `RTICommon::register_upstream`
    /// and `RTICommon::invalidate_min_delays` empty them all.
    pub fn set_upstream_id_at(&mut self, upstream_id: u16, idx: usize)
        requires
            idx <= old(self).upstream.len(),
        ensures
            final(self).upstream@ == old(self).upstream@.insert(idx as int, upstream_id as i32),
            cache_empty(*final(self)),
            same_core(*final(self), *old(self)),
            final(self).upstream_delay@ == old(self).upstream_delay@,
            final(self).num_upstream == old(self).num_upstream,
            final(self).downstream@ == old(self).downstream@,
            final(self).num_downstream == old(self).num_downstream,
    {
        self.upstream.insert(idx, upstream_id as i32);
        self.drop_min_delays();
    }

    pub fn set_completed(&mut self, completed: Tag)
        ensures
            *final(self) == (SchedulingNode { completed, ..*old(self) }),
    {
        self.completed = completed;
    }

    /// Inserts an upstream delay at position `idx`, moving the later delays
    /// up, and empties the cache of minimum delays of the node.
    pub fn set_upstream_delay_at(&mut self, upstream_delay: Interval, idx: usize)
        requires
            idx <= old(self).upstream_delay.len(),
        ensures
            final(self).upstream_delay@ == old(self).upstream_delay@.insert(
                idx as int,
                upstream_delay,
            ),
            cache_empty(*final(self)),
            same_core(*final(self), *old(self)),
            final(self).upstream@ == old(self).upstream@,
            final(self).num_upstream == old(self).num_upstream,
            final(self).downstream@ == old(self).downstream@,
            final(self).num_downstream == old(self).num_downstream,
    {
        self.upstream_delay.insert(idx, upstream_delay);
        self.drop_min_delays();
    }

    /// Sets the number of upstream connections and empties the cache of
    /// minimum delays of the node.
    pub fn set_num_upstream(&mut self, num_upstream: i32)
        ensures
            final(self).num_upstream == num_upstream,
            cache_empty(*final(self)),
            same_core(*final(self), *old(self)),
            final(self).upstream@ == old(self).upstream@,
            final(self).upstream_delay@ == old(self).upstream_delay@,
            final(self).downstream@ == old(self).downstream@,
            final(self).num_downstream == old(self).num_downstream,
    {
        self.num_upstream = num_upstream;
        self.drop_min_delays();
    }

    /// Inserts a downstream id at position `idx`, moving the later ids up,
    /// and empties the cache of minimum delays of the node.
    pub fn set_downstream_id_at(&mut self, downstream_id: u16, idx: usize)
        requires
            idx <= old(self).downstream.len(),
        ensures
            final(self).downstream@ == old(self).downstream@.insert(
                idx as int,
                downstream_id as i32,
            ),
            cache_empty(*final(self)),
            same_core(*final(self), *old(self)),
            final(self).upstream@ == old(self).upstream@,
            final(self).upstream_delay@ == old(self).upstream_delay@,
            final(self).num_upstream == old(self).num_upstream,
            final(self).num_downstream == old(self).num_downstream,
    {
        self.downstream.insert(idx, downstream_id as i32);
        self.drop_min_delays();
    }

    /// Sets the number of downstream connections and empties the cache of
    /// minimum delays of the node.
    pub fn set_num_downstream(&mut self, num_downstream: i32)
        ensures
            final(self).num_downstream == num_downstream,
            cache_empty(*final(self)),
            same_core(*final(self), *old(self)),
            final(self).upstream@ == old(self).upstream@,
            final(self).upstream_delay@ == old(self).upstream_delay@,
            final(self).num_upstream == old(self).num_upstream,
            final(self).downstream@ == old(self).downstream@,
    {
        self.num_downstream = num_downstream;
        self.drop_min_delays();
    }

    /// Sets the recorded length of the cache of minimum delays. A length of
    /// zero marks the cache as not built, and empties it: it is built anew
    /// when it is next needed.
    pub fn set_num_min_delays(&mut self, num_min_delays: u64)
        ensures
            final(self).num_min_delays == num_min_delays,
            final(self).min_delays@ == if num_min_delays == 0 {
                Seq::<MinimumDelay>::empty()
            } else {
                old(self).min_delays@
            },
            num_min_delays == 0 ==> cache_empty(*final(self)),
            same_links(*final(self), *old(self)),
            same_tags(*final(self), *old(self)),
            final(self).state == old(self).state,
            final(self).flags == old(self).flags,
    {
        self.num_min_delays = num_min_delays;
        if num_min_delays == 0 {
            self.min_delays.clear();
        }
    }

    pub fn set_flags(&mut self, flags: i32)
        ensures
            *final(self) == (SchedulingNode { flags, ..*old(self) }),
    {
        self.flags = flags;
    }
}

/// Whether every id of a list addresses a node of a registry of `n` nodes.
pub open spec fn ids_in_registry(ids: Seq<i32>, n: int) -> bool {
    forall|j: int| 0 <= j < ids.len() ==> 0 <= #[trigger] ids[j] < n
}

/// Tests whether every id of a list addresses a node of a registry of `n`
/// nodes.
fn check_ids_in_registry(ids: &Vec<i32>, n: usize) -> (result: bool)
    ensures
        result == ids_in_registry(ids@, n as int),
{
    let mut j: usize = 0;
    while j < ids.len()
        invariant
            j <= ids.len(),
            forall|k: int| 0 <= k < j ==> 0 <= #[trigger] ids[k] < n,
        decreases ids.len() - j,
    {
        let id: i32 = ids[j];
        if id < 0 || id as usize >= n {
            assert(!(0 <= ids@[j as int] < n));
            return false;
        }
        j = j + 1;
    }
    true
}

impl SchedulingNode {
    /// Tests whether the node is consistent as a member of a registry of
    /// `n` nodes.
    pub fn is_well_formed(&self, n: usize) -> (result: bool)
        ensures
            result == self.wf(n as int),
    {
        if self.upstream.len() != self.upstream_delay.len() {
            return false;
        }
        if self.num_upstream < 0 || self.num_upstream as usize != self.upstream.len() {
            return false;
        }
        if self.num_downstream < 0 || self.num_downstream as usize != self.downstream.len() {
            return false;
        }
        if self.num_min_delays != self.min_delays.len() as u64 {
            return false;
        }
        if !check_ids_in_registry(&self.upstream, n) {
            return false;
        }
        if !check_ids_in_registry(&self.downstream, n) {
            return false;
        }
        let mut k: usize = 0;
        while k < self.min_delays.len()
            invariant
                k <= self.min_delays.len(),
                forall|l: int| 0 <= l < k ==> 0 <= (#[trigger] self.min_delays[l]).id < n,
            decreases self.min_delays.len() - k,
        {
            let id: i32 = self.min_delays[k].id;
            if id < 0 || id as usize >= n {
                assert(!(0 <= self.min_delays@[k as int].id < n));
                return false;
            }
            k = k + 1;
        }
        true
    }
}

/// Whether two nodes agree on their id, their connections and their mode.
pub open spec fn same_links(a: SchedulingNode, b: SchedulingNode) -> bool {
    &&& a.id == b.id
    &&& a.upstream@ == b.upstream@
    &&& a.upstream_delay@ == b.upstream_delay@
    &&& a.num_upstream == b.num_upstream
    &&& a.downstream@ == b.downstream@
    &&& a.num_downstream == b.num_downstream
    &&& a.mode == b.mode
}

/// Whether two nodes agree on their id, their mode, their tags, their state
/// and their flags.
pub open spec fn same_core(a: SchedulingNode, b: SchedulingNode) -> bool {
    &&& a.id == b.id
    &&& a.mode == b.mode
    &&& same_tags(a, b)
    &&& a.state == b.state
    &&& a.flags == b.flags
}

/// Whether two nodes agree on their four tags.
pub open spec fn same_tags(a: SchedulingNode, b: SchedulingNode) -> bool {
    &&& a.completed == b.completed
    &&& a.last_granted == b.last_granted
    &&& a.last_provisionally_granted == b.last_provisionally_granted
    &&& a.next_event == b.next_event
}

/// Whether two nodes agree on their cached minimum delays.
pub open spec fn same_cache(a: SchedulingNode, b: SchedulingNode) -> bool {
    &&& a.min_delays@ == b.min_delays@
    &&& a.num_min_delays == b.num_min_delays
}

/// Whether two nodes agree on everything.
pub open spec fn same_node(a: SchedulingNode, b: SchedulingNode) -> bool {
    &&& same_links(a, b)
    &&& same_tags(a, b)
    &&& same_cache(a, b)
    &&& a.state == b.state
    &&& a.flags == b.flags
}

/// Whether a node's cache of minimum delays is not built.
pub open spec fn cache_empty(a: SchedulingNode) -> bool {
    &&& a.min_delays@.len() == 0
    &&& a.num_min_delays == 0
}

/// The registry of the scheduling nodes of one federation. The node with id
/// `i` stands at position `i`.
#[derive(Debug)]
pub struct RTICommon {
    /// The scheduling nodes.
    pub scheduling_nodes: Vec<SchedulingNode>,
    /// Number of scheduling nodes.
    pub number_of_scheduling_nodes: i32,
    /// The stop tag decided for the scheduling nodes.
    pub max_stop_tag: Tag,
    /// Number of scheduling nodes handling stop.
    pub num_scheduling_nodes_handling_stop: i32,
    /// Whether tracing is enabled.
    pub tracing_enabled: bool,
}

impl RTICommon {
    /// Whether the registry is consistent: it holds at most
    /// `MAX_SCHEDULING_NODES` nodes, records their number, and each node is
    /// consistent and stands at the position of its id.
    pub open spec fn wf(&self) -> bool {
        &&& self.scheduling_nodes.len() <= MAX_SCHEDULING_NODES
        &&& self.number_of_scheduling_nodes == self.scheduling_nodes.len()
        &&& forall|i: int|
            0 <= i < self.scheduling_nodes.len() ==> (#[trigger] self.scheduling_nodes[i]).wf(
                self.scheduling_nodes.len() as int,
            ) && self.scheduling_nodes[i].id == i
    }

    /// Whether the registry agrees with `before` on everything but the
    /// nodes, and holds as many nodes.
    pub open spec fn same_frame(&self, before: &RTICommon) -> bool {
        &&& self.scheduling_nodes.len() == before.scheduling_nodes.len()
        &&& self.number_of_scheduling_nodes == before.number_of_scheduling_nodes
        &&& self.max_stop_tag == before.max_stop_tag
        &&& self.num_scheduling_nodes_handling_stop == before.num_scheduling_nodes_handling_stop
        &&& self.tracing_enabled == before.tracing_enabled
    }

    /// Whether the registry agrees with `before` on everything.
    pub open spec fn same_as(&self, before: &RTICommon) -> bool {
        &&& self.same_frame(before)
        &&& forall|i: int|
            0 <= i < before.scheduling_nodes.len() ==> same_node(
                #[trigger] self.scheduling_nodes[i],
                before.scheduling_nodes[i],
            )
    }

    pub fn new() -> (result: RTICommon)
        ensures
            result.scheduling_nodes@.len() == 0,
            result.number_of_scheduling_nodes == 0,
            result.max_stop_tag == Tag::never(),
            result.num_scheduling_nodes_handling_stop == 0,
            !result.tracing_enabled,
            result.wf(),
            caches_valid(&result),
            flags_follow_caches(&result),
    {
        RTICommon {
            scheduling_nodes: Vec::new(),
            number_of_scheduling_nodes: 0,
            max_stop_tag: Tag::never_tag(),
            num_scheduling_nodes_handling_stop: 0,
            tracing_enabled: false,
        }
    }

    /// The scheduling nodes, for the caller to read or to change.
    pub fn scheduling_nodes(&mut self) -> (result: &mut Vec<SchedulingNode>)
        ensures
            *result == old(self).scheduling_nodes,
            *final(self) == (RTICommon { scheduling_nodes: *final(result), ..*old(self) }),
    {
        &mut self.scheduling_nodes
    }

    pub fn number_of_scheduling_nodes(&self) -> (result: i32)
        ensures
            result == self.number_of_scheduling_nodes,
    {
        self.number_of_scheduling_nodes
    }

    pub fn max_stop_tag(&self) -> (result: Tag)
        ensures
            result == self.max_stop_tag,
    {
        self.max_stop_tag
    }

    pub fn num_scheduling_nodes_handling_stop(&self) -> (result: i32)
        ensures
            result == self.num_scheduling_nodes_handling_stop,
    {
        self.num_scheduling_nodes_handling_stop
    }

    pub fn set_max_stop_tag(&mut self, max_stop_tag: Tag)
        ensures
            *final(self) == (RTICommon { max_stop_tag, ..*old(self) }),
    {
        self.max_stop_tag = max_stop_tag;
    }

    pub fn set_number_of_scheduling_nodes(&mut self, number_of_scheduling_nodes: i32)
        ensures
            *final(self) == (RTICommon { number_of_scheduling_nodes, ..*old(self) }),
    {
        self.number_of_scheduling_nodes = number_of_scheduling_nodes;
    }

    pub fn set_num_scheduling_nodes_handling_stop(
        &mut self,
        num_scheduling_nodes_handling_stop: i32,
    )
        ensures
            *final(self) == (RTICommon { num_scheduling_nodes_handling_stop, ..*old(self) }),
    {
        self.num_scheduling_nodes_handling_stop = num_scheduling_nodes_handling_stop;
    }

    /// Tests whether the registry is consistent.
    pub fn is_well_formed(&self) -> (result: bool)
        ensures
            result == self.wf(),
    {
        let n: usize = self.scheduling_nodes.len();
        if n > MAX_SCHEDULING_NODES {
            return false;
        }
        if self.number_of_scheduling_nodes < 0 || self.number_of_scheduling_nodes as usize != n {
            return false;
        }
        let mut i: usize = 0;
        while i < n
            invariant
                i <= n,
                n == self.scheduling_nodes.len(),
                forall|k: int|
                    0 <= k < i ==> (#[trigger] self.scheduling_nodes[k]).wf(n as int)
                        && self.scheduling_nodes[k].id == k,
            decreases n - i,
        {
            let node = &self.scheduling_nodes[i];
            if node.id as usize != i || !node.is_well_formed(n) {
                assert(!(node.wf(n as int) && node.id == i));
                return false;
            }
            i = i + 1;
        }
        true
    }

    /// Empties the cache of minimum delays of every node. Whatever changes
    /// a connection, or connects or disconnects a node, does this: the
    /// caches are rebuilt when they are next needed.
    pub fn invalidate_min_delays(&mut self)
        ensures
            caches_dropped(old(self), final(self)),
            old(self).wf() ==> final(self).wf(),
            caches_valid(final(self)),
            flags_follow_caches(final(self)),
            final(self).graph() == old(self).graph(),
    {
        let n: usize = self.scheduling_nodes.len();
        let mut i: usize = 0;
        while i < n
            invariant
                i <= n,
                n == old(self).scheduling_nodes.len(),
                self.same_frame(old(self)),
                forall|k: int|
                    0 <= k < i ==> cache_dropped(
                        old(self).scheduling_nodes[k],
                        #[trigger] self.scheduling_nodes[k],
                    ),
                forall|k: int|
                    i <= k < n ==> #[trigger] self.scheduling_nodes[k] == old(
                        self,
                    ).scheduling_nodes[k],
            decreases n - i,
        {
            self.scheduling_nodes[i].min_delays.clear();
            self.scheduling_nodes[i].num_min_delays = 0;
            i = i + 1;
        }
        proof {
            if old(self).wf() {
                assert forall|k: int| 0 <= k < n implies (#[trigger] self.scheduling_nodes[k]).wf(
                    n as int,
                ) && self.scheduling_nodes[k].id == k by {
                    assert(old(self).scheduling_nodes[k].wf(n as int));
                    assert(cache_dropped(old(self).scheduling_nodes[k], self.scheduling_nodes[k]));
                }
            }
        }
    }

    /// Adds a node with the id `id` to the registry, in the state in which
    /// `SchedulingNode::new` makes it, and empties every cache of minimum
    /// delays. The ids are dense: the node is added only where `id` is the
    /// number of nodes that the registry holds. Returns whether the node
    /// was added; where it was not, nothing has changed.
    pub fn initialize_node(&mut self, id: u16) -> (added: bool)
        requires
            old(self).wf(),
        ensures
            final(self).wf(),
            added == (id == old(self).scheduling_nodes.len()),
            !added ==> final(self).same_as(old(self)),
            added ==> {
                &&& final(self).scheduling_nodes.len() == old(self).scheduling_nodes.len() + 1
                &&& final(self).scheduling_nodes[id as int].id == id
                &&& final(self).scheduling_nodes[id as int].is_fresh()
                &&& forall|i: int|
                    0 <= i < old(self).scheduling_nodes.len() ==> cache_dropped(
                        old(self).scheduling_nodes[i],
                        #[trigger] final(self).scheduling_nodes[i],
                    )
                &&& final(self).max_stop_tag == old(self).max_stop_tag
                &&& final(self).num_scheduling_nodes_handling_stop == old(
                    self,
                ).num_scheduling_nodes_handling_stop
                &&& final(self).tracing_enabled == old(self).tracing_enabled
                &&& caches_valid(final(self))
                &&& flags_follow_caches(final(self))
            },
    {
        if id as usize != self.scheduling_nodes.len() {
            return false;
        }
        let mut node = SchedulingNode::new();
        node.initialize_scheduling_node(id);
        self.scheduling_nodes.push(node);
        self.number_of_scheduling_nodes = self.number_of_scheduling_nodes + 1;
        proof {
            let n = self.scheduling_nodes.len() as int;
            assert forall|i: int| 0 <= i < n implies (#[trigger] self.scheduling_nodes[i]).wf(n)
                && self.scheduling_nodes[i].id == i by {
                if i < n - 1 {
                    assert(old(self).scheduling_nodes[i].wf(n - 1));
                }
            }
        }
        let ghost grown = *self;
        self.invalidate_min_delays();
        proof {
            let fresh = self.scheduling_nodes[id as int];
            assert(cache_dropped(grown.scheduling_nodes[id as int], fresh));
            assert(fresh.min_delays@ =~= Seq::<MinimumDelay>::empty());
            assert forall|i: int| 0 <= i < old(self).scheduling_nodes.len() implies cache_dropped(
                old(self).scheduling_nodes[i],
                #[trigger] self.scheduling_nodes[i],
            ) by {
                assert(grown.scheduling_nodes[i] == old(self).scheduling_nodes[i]);
                assert(cache_dropped(grown.scheduling_nodes[i], self.scheduling_nodes[i]));
            }
        }
        true
    }

    /// Records a connection from node `upstream_id` to node `id` with the
    /// delay `delay`, as the last upstream connection of `id`, and empties
    /// every cache of minimum delays.
    pub fn register_upstream(&mut self, id: u16, upstream_id: u16, delay: Interval)
        requires
            old(self).wf(),
            id < old(self).scheduling_nodes.len(),
            upstream_id < old(self).scheduling_nodes.len(),
            old(self).scheduling_nodes[id as int].num_upstream < i32::MAX,
        ensures
            final(self).wf(),
            final(self).same_frame(old(self)),
            forall|i: int|
                0 <= i < old(self).scheduling_nodes.len() ==> {
                    let b = old(self).scheduling_nodes[i];
                    let a = #[trigger] final(self).scheduling_nodes[i];
                    &&& same_tags(a, b)
                    &&& a.state == b.state
                    &&& a.flags == b.flags
                    &&& cache_empty(a)
                    &&& a.id == b.id
                    &&& a.mode == b.mode
                    &&& a.downstream@ == b.downstream@
                    &&& a.num_downstream == b.num_downstream
                    &&& i != id ==> same_links(a, b)
                },
            ({
                let b = old(self).scheduling_nodes[id as int];
                let a = final(self).scheduling_nodes[id as int];
                &&& a.upstream@ == b.upstream@.push(upstream_id as i32)
                &&& a.upstream_delay@ == b.upstream_delay@.push(delay)
                &&& a.num_upstream == b.num_upstream + 1
            }),
            caches_valid(final(self)),
            flags_follow_caches(final(self)),
    {
        let idx: usize = id as usize;
        assert(self.scheduling_nodes[idx as int].wf(self.scheduling_nodes.len() as int));
        self.scheduling_nodes[idx].upstream.push(upstream_id as i32);
        self.scheduling_nodes[idx].upstream_delay.push(delay);
        let num_upstream: i32 = self.scheduling_nodes[idx].num_upstream;
        self.scheduling_nodes[idx].num_upstream = num_upstream + 1;
        proof {
            let n = self.scheduling_nodes.len() as int;
            assert forall|i: int| 0 <= i < n implies (#[trigger] self.scheduling_nodes[i]).wf(n)
                && self.scheduling_nodes[i].id == i by {
                assert(old(self).scheduling_nodes[i].wf(n));
            }
        }
        self.invalidate_min_delays();
    }

    /// Records a connection from node `id` to node `downstream_id`, as the
    /// last downstream connection of `id`, and empties every cache of
    /// minimum delays.
    pub fn register_downstream(&mut self, id: u16, downstream_id: u16)
        requires
            old(self).wf(),
            id < old(self).scheduling_nodes.len(),
            downstream_id < old(self).scheduling_nodes.len(),
            old(self).scheduling_nodes[id as int].num_downstream < i32::MAX,
        ensures
            final(self).wf(),
            final(self).same_frame(old(self)),
            forall|i: int|
                0 <= i < old(self).scheduling_nodes.len() ==> {
                    let b = old(self).scheduling_nodes[i];
                    let a = #[trigger] final(self).scheduling_nodes[i];
                    &&& same_tags(a, b)
                    &&& a.state == b.state
                    &&& a.flags == b.flags
                    &&& cache_empty(a)
                    &&& a.id == b.id
                    &&& a.mode == b.mode
                    &&& a.upstream@ == b.upstream@
                    &&& a.upstream_delay@ == b.upstream_delay@
                    &&& a.num_upstream == b.num_upstream
                    &&& i != id ==> same_links(a, b)
                },
            ({
                let b = old(self).scheduling_nodes[id as int];
                let a = final(self).scheduling_nodes[id as int];
                &&& a.downstream@ == b.downstream@.push(downstream_id as i32)
                &&& a.num_downstream == b.num_downstream + 1
            }),
            caches_valid(final(self)),
            flags_follow_caches(final(self)),
    {
        let idx: usize = id as usize;
        assert(self.scheduling_nodes[idx as int].wf(self.scheduling_nodes.len() as int));
        self.scheduling_nodes[idx].downstream.push(downstream_id as i32);
        let num_downstream: i32 = self.scheduling_nodes[idx].num_downstream;
        self.scheduling_nodes[idx].num_downstream = num_downstream + 1;
        proof {
            let n = self.scheduling_nodes.len() as int;
            assert forall|i: int| 0 <= i < n implies (#[trigger] self.scheduling_nodes[i]).wf(n)
                && self.scheduling_nodes[i].id == i by {
                assert(old(self).scheduling_nodes[i].wf(n));
            }
        }
        self.invalidate_min_delays();
    }

    /// Sets the state of node `fed_id`. Where this connects or disconnects
    /// the node, every cache of minimum delays is emptied.
    pub fn set_state(&mut self, fed_id: u16, state: SchedulingNodeState)
        requires
            old(self).wf(),
            fed_id < old(self).scheduling_nodes.len(),
        ensures
            state_set(old(self), final(self), fed_id as int, state),
            caches_valid(old(self)) ==> caches_valid(final(self)),
            flags_follow_caches(old(self)) ==> flags_follow_caches(final(self)),
    {
        let idx: usize = fed_id as usize;
        let was_connected = self.scheduling_nodes[idx].state != SchedulingNodeState::NotConnected;
        let is_connected = state != SchedulingNodeState::NotConnected;
        self.scheduling_nodes[idx].state = state;
        proof {
            let n = self.scheduling_nodes.len() as int;
            assert forall|i: int| 0 <= i < n implies (#[trigger] self.scheduling_nodes[i]).wf(n)
                && self.scheduling_nodes[i].id == i by {
                assert(old(self).scheduling_nodes[i].wf(n));
            }
        }
        if was_connected != is_connected {
            self.invalidate_min_delays();
        } else {
            proof {
                if caches_valid(old(self)) {
                    lemma_same_graph(old(self), self);
                    lemma_caches_stay_valid(old(self), self);
                }
                if flags_follow_caches(old(self)) {
                    lemma_flags_still_follow(old(self), self);
                }
            }
        }
    }
}

/// What a node is after its cache of minimum delays was emptied.
pub open spec fn cache_dropped(before: SchedulingNode, after: SchedulingNode) -> bool {
    &&& same_links(after, before)
    &&& same_tags(after, before)
    &&& after.state == before.state
    &&& after.flags == before.flags
    &&& cache_empty(after)
}

/// What a registry is after the caches of all its nodes were emptied.
pub open spec fn caches_dropped(before: &RTICommon, after: &RTICommon) -> bool {
    &&& after.same_frame(before)
    &&& forall|i: int|
        0 <= i < before.scheduling_nodes.len() ==> cache_dropped(
            before.scheduling_nodes[i],
            #[trigger] after.scheduling_nodes[i],
        )
}

/// What a registry is after the state of node `fed` was set to `state`:
/// the node has that state, every cache is emptied where the node was
/// connected or disconnected by this and kept where it was not, and all
/// else is as before.
pub open spec fn state_set(
    before: &RTICommon,
    after: &RTICommon,
    fed: int,
    state: SchedulingNodeState,
) -> bool {
    let reconnects = (before.scheduling_nodes[fed].state == SchedulingNodeState::NotConnected) != (
    state == SchedulingNodeState::NotConnected);
    &&& after.wf()
    &&& after.same_frame(before)
    &&& forall|i: int|
        0 <= i < before.scheduling_nodes.len() ==> {
            let b = before.scheduling_nodes[i];
            let a = #[trigger] after.scheduling_nodes[i];
            &&& same_links(a, b)
            &&& same_tags(a, b)
            &&& a.flags == b.flags
            &&& a.state == if i == fed {
                state
            } else {
                b.state
            }
            &&& if reconnects {
                cache_empty(a)
            } else {
                same_cache(a, b)
            }
        }
}


/// A decision on a node's request to advance: the tag to grant, or `NEVER`
/// where nothing can be granted, and whether the grant is provisional.
#[derive(Clone, Copy, PartialEq, Eq, Structural, Debug)]
pub struct TagAdvanceGrant {
    /// `NEVER` if there is no tag advance grant.
    pub tag: Tag,
    /// True for a provisional grant (PTAG), false for a grant (TAG).
    pub is_provisional: bool,
}

impl TagAdvanceGrant {
    pub fn new(tag: Tag, is_provisional: bool) -> (result: TagAdvanceGrant)
        ensures
            result == (TagAdvanceGrant { tag, is_provisional }),
    {
        TagAdvanceGrant { tag, is_provisional }
    }

    pub fn tag(&self) -> (result: Tag)
        ensures
            result == self.tag,
    {
        self.tag
    }

    pub fn is_provisional(&self) -> (result: bool)
        ensures
            result == self.is_provisional,
    {
        self.is_provisional
    }

    pub fn set_tag(&mut self, tag: Tag)
        ensures
            *final(self) == (TagAdvanceGrant { tag, ..*old(self) }),
    {
        self.tag = tag;
    }

    pub fn set_provisional(&mut self, is_provisional: bool)
        ensures
            *final(self) == (TagAdvanceGrant { is_provisional, ..*old(self) }),
    {
        self.is_provisional = is_provisional;
    }
}

} // verus!
