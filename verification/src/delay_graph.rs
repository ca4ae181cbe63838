//! The connections between scheduling nodes as a graph, and the walks that
//! lead from a node to the nodes upstream of it.
//!
//! Everything here is specification and proof: the model over which the
//! minimum-delay engine states what it computes.

use crate::rti_common::{RTICommon, SchedulingNode, SchedulingNodeState};
use crate::tag::{Interval, Tag};
use vstd::prelude::*;

verus! {

/// What the minimum delays depend on in one scheduling node: whether it is
/// connected, and its upstream connections with their delays.
pub struct Vertex {
    pub connected: bool,
    pub upstream: Seq<i32>,
    pub delay: Seq<Interval>,
}

impl SchedulingNode {
    /// The node as a vertex of the connection graph.
    pub open spec fn vertex(&self) -> Vertex {
        Vertex {
            connected: self.state != SchedulingNodeState::NotConnected,
            upstream: self.upstream@,
            delay: self.upstream_delay@,
        }
    }
}

/// The connection graph of a sequence of nodes.
pub open spec fn graph_of(nodes: Seq<SchedulingNode>) -> Seq<Vertex> {
    nodes.map_values(|n: SchedulingNode| n.vertex())
}

impl RTICommon {
    /// The connection graph of the registry.
    pub open spec fn graph(&self) -> Seq<Vertex> {
        graph_of(self.scheduling_nodes@)
    }
}

/// Whether vertex `v` has one delay for each upstream connection, and each
/// connection comes from a vertex of the graph.
pub open spec fn vertex_wf(g: Seq<Vertex>, v: int) -> bool {
    &&& g[v].upstream.len() == g[v].delay.len()
    &&& forall|j: int| 0 <= j < g[v].upstream.len() ==> 0 <= #[trigger] g[v].upstream[j] < g.len()
}

pub open spec fn graph_wf(g: Seq<Vertex>) -> bool {
    forall|v: int| 0 <= v < g.len() ==> #[trigger] vertex_wf(g, v)
}

/// A hop `(v, j)` goes from vertex `v` to the origin of its `j`-th upstream
/// connection. Only a connected vertex can be left.
pub open spec fn hop_ok(g: Seq<Vertex>, h: (int, int)) -> bool {
    &&& 0 <= h.0 < g.len()
    &&& g[h.0].connected
    &&& 0 <= h.1 < g[h.0].upstream.len()
}

pub open spec fn hop_target(g: Seq<Vertex>, h: (int, int)) -> int {
    g[h.0].upstream[h.1] as int
}

pub open spec fn hop_delay(g: Seq<Vertex>, h: (int, int)) -> Interval {
    g[h.0].delay[h.1]
}

/// The vertex at which a walk from `start` ends.
pub open spec fn walk_end(g: Seq<Vertex>, start: int, w: Seq<(int, int)>) -> int {
    if w.len() == 0 {
        start
    } else {
        hop_target(g, w.last())
    }
}

/// Whether `w` is a walk from `start`: each hop is possible and leaves the
/// vertex that the hops before it lead to.
pub open spec fn is_walk(g: Seq<Vertex>, start: int, w: Seq<(int, int)>) -> bool
    decreases w.len(),
{
    if w.len() == 0 {
        true
    } else {
        &&& is_walk(g, start, w.drop_last())
        &&& hop_ok(g, w.last())
        &&& w.last().0 == walk_end(g, start, w.drop_last())
    }
}

/// The delay accumulated along a walk: the zero tag delayed by each
/// connection in turn.
pub open spec fn walk_delay(g: Seq<Vertex>, w: Seq<(int, int)>) -> Tag
    decreases w.len(),
{
    if w.len() == 0 {
        Tag::zero()
    } else {
        walk_delay(g, w.drop_last()).delay(hop_delay(g, w.last()))
    }
}

/// Whether a tag lies below `FOREVER`.
pub open spec fn finite(t: Tag) -> bool {
    t.lt(Tag::forever())
}

/// Whether a tag can be an accumulated delay: it is the `FOREVER` tag, or
/// its time is neither negative nor `FOREVER`.
pub open spec fn delay_shaped(t: Tag) -> bool {
    t == Tag::forever() || 0 <= t.time < i64::MAX
}

/// Whether some walk of at least one hop and of at most as many hops as the
/// graph has vertices leads from `start` to `u` and accumulates delay `t`.
pub open spec fn has_walk_with_delay(g: Seq<Vertex>, start: int, u: int, t: Tag) -> bool {
    exists|w: Seq<(int, int)>|
        #[trigger] is_walk(g, start, w) && 1 <= w.len() <= g.len() && walk_end(g, start, w) == u
            && walk_delay(g, w) == t
}

/// Whether `u` is transitively upstream of `start`: some walk of at least
/// one hop leads from `start` to `u` with an accumulated delay below
/// `FOREVER`.
pub open spec fn reaches(g: Seq<Vertex>, start: int, u: int) -> bool {
    exists|w: Seq<(int, int)>|
        #[trigger] is_walk(g, start, w) && 1 <= w.len() && walk_end(g, start, w) == u && finite(
            walk_delay(g, w),
        )
}

/// Whether `t` is the least delay that a walk from `start` to `u`
/// accumulates, among the walks of at least one and at most `u32::MAX` hops.
pub open spec fn least_delay(g: Seq<Vertex>, start: int, u: int, t: Tag) -> bool {
    &&& has_walk_with_delay(g, start, u, t)
    &&& forall|w: Seq<(int, int)>|
        #[trigger] is_walk(g, start, w) && 1 <= w.len() <= u32::MAX && walk_end(g, start, w) == u
            ==> t.le(walk_delay(g, w))
}

/// Whether some walk of at least one and at most `u32::MAX` hops leads from
/// `v` back to `v` and accumulates no delay at all.
pub open spec fn on_zero_delay_cycle(g: Seq<Vertex>, v: int) -> bool {
    exists|w: Seq<(int, int)>|
        #[trigger] is_walk(g, v, w) && 1 <= w.len() <= u32::MAX && walk_end(g, v, w) == v
            && walk_delay(g, w) == Tag::zero()
}

/// Whether the `j`-th upstream connection of `v` is relaxed for a delay `a`
/// at `v`: the delay recorded for its origin is at most `a` delayed by the
/// connection.
pub open spec fn edge_relaxed(g: Seq<Vertex>, pd: Seq<Tag>, v: int, a: Tag, j: int) -> bool {
    pd[g[v].upstream[j] as int].le(a.delay(g[v].delay[j]))
}

/// Whether the first `n` upstream connections of `v` are relaxed.
pub open spec fn relaxed_upto(g: Seq<Vertex>, pd: Seq<Tag>, v: int, a: Tag, n: int) -> bool {
    forall|j: int| 0 <= j < n ==> #[trigger] edge_relaxed(g, pd, v, a, j)
}

/// Whether `a` holds, vertex by vertex, a tag that is at most the one in
/// `b`.
pub open spec fn pointwise_le(a: Seq<Tag>, b: Seq<Tag>) -> bool {
    &&& a.len() == b.len()
    &&& forall|v: int| 0 <= v < a.len() ==> (#[trigger] a[v]).le(b[v])
}

/// The delay from which the connections of `v` are relaxed: zero at the
/// start vertex, the recorded delay elsewhere.
pub open spec fn departure(start: int, pd: Seq<Tag>, v: int) -> Tag {
    if v == start {
        Tag::zero()
    } else {
        pd[v]
    }
}

/// Whether the recorded delays `pd` are a fixed point of relaxation from
/// `start`: every entry is shaped as a delay and is witnessed by a walk
/// unless it is `FOREVER`, and every connection of a connected vertex that
/// is the start or has an entry below `FOREVER` is relaxed.
pub open spec fn settled(g: Seq<Vertex>, start: int, pd: Seq<Tag>) -> bool {
    &&& graph_wf(g)
    &&& 0 <= start < g.len() <= u32::MAX
    &&& pd.len() == g.len()
    &&& forall|v: int| 0 <= v < g.len() ==> delay_shaped(#[trigger] pd[v])
    &&& forall|v: int|
        0 <= v < g.len() && finite(pd[v]) ==> #[trigger] has_walk_with_delay(g, start, v, pd[v])
    &&& forall|v: int|
        0 <= v < g.len() && g[v].connected && (v == start || finite(pd[v]))
            ==> #[trigger] relaxed_upto(
            g,
            pd,
            v,
            departure(start, pd, v),
            g[v].upstream.len() as int,
        )
}

/// Extending a walk by one hop from its end.
pub proof fn lemma_walk_push(g: Seq<Vertex>, start: int, w: Seq<(int, int)>, h: (int, int))
    requires
        is_walk(g, start, w),
        hop_ok(g, h),
        h.0 == walk_end(g, start, w),
    ensures
        is_walk(g, start, w.push(h)),
        walk_end(g, start, w.push(h)) == hop_target(g, h),
        walk_delay(g, w.push(h)) == walk_delay(g, w).delay(hop_delay(g, h)),
{
    assert(w.push(h).drop_last() =~= w);
    assert(w.push(h).last() == h);
}

/// A walk in a well-formed graph ends at a vertex of the graph.
pub proof fn lemma_walk_end_in_graph(g: Seq<Vertex>, start: int, w: Seq<(int, int)>)
    requires
        graph_wf(g),
        0 <= start < g.len(),
        is_walk(g, start, w),
    ensures
        0 <= walk_end(g, start, w) < g.len(),
{
    if w.len() > 0 {
        assert(vertex_wf(g, w.last().0));
    }
}

/// The delay of a walk is shaped as a delay, and while it is below
/// `FOREVER` its microstep counts at most the hops.
pub proof fn lemma_walk_delay_shape(g: Seq<Vertex>, start: int, w: Seq<(int, int)>)
    requires
        is_walk(g, start, w),
    ensures
        delay_shaped(walk_delay(g, w)),
        finite(walk_delay(g, w)) && w.len() <= u32::MAX ==> walk_delay(g, w).microstep <= w.len(),
    decreases w.len(),
{
    if w.len() > 0 {
        lemma_walk_delay_shape(g, start, w.drop_last());
    }
}

/// Delaying keeps the order of two delays whose greater one has room for
/// another microstep.
pub proof fn lemma_delay_monotone(x: Tag, y: Tag, d: Interval)
    requires
        delay_shaped(x),
        delay_shaped(y),
        x.le(y),
        finite(y) ==> y.microstep < u32::MAX,
    ensures
        x.delay(d).le(y.delay(d)),
{
}

/// Delaying never lowers a delay that has room for another microstep.
pub proof fn lemma_delay_grows(x: Tag, d: Interval)
    requires
        delay_shaped(x),
        finite(x) ==> x.microstep < u32::MAX,
    ensures
        x.le(x.delay(d)),
        delay_shaped(x.delay(d)),
{
}

/// In settled delays, the entry of the end of a walk is at most the delay
/// of the walk, for every walk of at most `u32::MAX` hops.
pub proof fn lemma_settled_lower_bound(
    g: Seq<Vertex>,
    start: int,
    pd: Seq<Tag>,
    w: Seq<(int, int)>,
)
    requires
        settled(g, start, pd),
        is_walk(g, start, w),
        1 <= w.len() <= u32::MAX,
    ensures
        0 <= walk_end(g, start, w) < g.len(),
        pd[walk_end(g, start, w)].le(walk_delay(g, w)),
    decreases w.len(),
{
    let h = w.last();
    let before = w.drop_last();
    let v = h.0;
    let a = walk_delay(g, before);
    lemma_walk_end_in_graph(g, start, w);
    lemma_walk_end_in_graph(g, start, before);
    lemma_walk_delay_shape(g, start, before);
    lemma_walk_delay_shape(g, start, w);
    assert(vertex_wf(g, v));
    if before.len() > 0 {
        lemma_settled_lower_bound(g, start, pd, before);
    }
    if finite(walk_delay(g, w)) {
        assert(finite(a));
        assert(delay_shaped(pd[v]));
        assert(departure(start, pd, v).le(a));
        assert(relaxed_upto(g, pd, v, departure(start, pd, v), g[v].upstream.len() as int));
        assert(edge_relaxed(g, pd, v, departure(start, pd, v), h.1));
        lemma_delay_monotone(departure(start, pd, v), a, hop_delay(g, h));
    } else {
        assert(delay_shaped(pd[walk_end(g, start, w)]));
    }
}

/// In settled delays, the end of every walk with a delay below `FOREVER`
/// has an entry below `FOREVER`, however long the walk is.
pub proof fn lemma_settled_reaches(g: Seq<Vertex>, start: int, pd: Seq<Tag>, w: Seq<(int, int)>)
    requires
        settled(g, start, pd),
        is_walk(g, start, w),
        1 <= w.len(),
        finite(walk_delay(g, w)),
    ensures
        0 <= walk_end(g, start, w) < g.len(),
        finite(pd[walk_end(g, start, w)]),
        pd[walk_end(g, start, w)].time <= walk_delay(g, w).time,
    decreases w.len(),
{
    let h = w.last();
    let before = w.drop_last();
    let v = h.0;
    let a = walk_delay(g, before);
    lemma_walk_end_in_graph(g, start, w);
    lemma_walk_end_in_graph(g, start, before);
    lemma_walk_delay_shape(g, start, before);
    lemma_walk_delay_shape(g, start, w);
    assert(vertex_wf(g, v));
    assert(finite(a));
    if before.len() > 0 {
        lemma_settled_reaches(g, start, pd, before);
    }
    assert(delay_shaped(pd[v]));
    assert(departure(start, pd, v).time <= a.time);
    assert(relaxed_upto(g, pd, v, departure(start, pd, v), g[v].upstream.len() as int));
    assert(edge_relaxed(g, pd, v, departure(start, pd, v), h.1));
    assert(delay_shaped(pd[walk_end(g, start, w)]));
}

/// Settled delays are exact: an entry below `FOREVER` is the least delay of
/// its vertex, and the vertices with such an entry are those that the start
/// reaches.
pub proof fn lemma_settled_is_exact(g: Seq<Vertex>, start: int, pd: Seq<Tag>, u: int)
    requires
        settled(g, start, pd),
        0 <= u < g.len(),
    ensures
        finite(pd[u]) <==> reaches(g, start, u),
        finite(pd[u]) ==> least_delay(g, start, u, pd[u]),
        u == start ==> (pd[u] == Tag::zero() <==> on_zero_delay_cycle(g, start)),
{
    if finite(pd[u]) {
        assert(has_walk_with_delay(g, start, u, pd[u]));
        let w = choose|w: Seq<(int, int)>|
            #[trigger] is_walk(g, start, w) && 1 <= w.len() <= g.len() && walk_end(g, start, w)
                == u && walk_delay(g, w) == pd[u];
        assert(is_walk(g, start, w) && 1 <= w.len() && walk_end(g, start, w) == u && finite(
            walk_delay(g, w),
        ));
        assert forall|w2: Seq<(int, int)>|
            #[trigger] is_walk(g, start, w2) && 1 <= w2.len() <= u32::MAX && walk_end(
                g,
                start,
                w2,
            ) == u implies pd[u].le(walk_delay(g, w2)) by {
            lemma_settled_lower_bound(g, start, pd, w2);
        }
    }
    if reaches(g, start, u) {
        let w = choose|w: Seq<(int, int)>|
            #[trigger] is_walk(g, start, w) && 1 <= w.len() && walk_end(g, start, w) == u
                && finite(walk_delay(g, w));
        lemma_settled_reaches(g, start, pd, w);
    }
    if u == start {
        if pd[u] == Tag::zero() {
            assert(has_walk_with_delay(g, start, u, pd[u]));
            let w = choose|w: Seq<(int, int)>|
                #[trigger] is_walk(g, start, w) && 1 <= w.len() <= g.len() && walk_end(
                    g,
                    start,
                    w,
                ) == u && walk_delay(g, w) == pd[u];
            assert(is_walk(g, start, w) && 1 <= w.len() <= u32::MAX && walk_end(g, start, w)
                == start && walk_delay(g, w) == Tag::zero());
        }
        if on_zero_delay_cycle(g, start) {
            let w = choose|w: Seq<(int, int)>|
                #[trigger] is_walk(g, start, w) && 1 <= w.len() <= u32::MAX && walk_end(
                    g,
                    start,
                    w,
                ) == start && walk_delay(g, w) == Tag::zero();
            lemma_settled_lower_bound(g, start, pd, w);
            assert(delay_shaped(pd[u]));
        }
    }
}

} // verus!
