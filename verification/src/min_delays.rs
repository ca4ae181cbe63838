//! The minimum-delay path engine: for one node, the least delay accumulated
//! over the paths from each of its transitive upstream nodes, and whether
//! the node lies on a cycle.

use crate::delay_graph::{
    delay_shaped, departure, edge_relaxed, finite, graph_wf, has_walk_with_delay, hop_ok, is_walk,
    least_delay, lemma_delay_grows, lemma_settled_is_exact, lemma_walk_delay_shape,
    lemma_walk_push, on_zero_delay_cycle, pointwise_le, reaches, relaxed_upto, settled,
    vertex_wf, walk_delay, walk_end, Vertex,
};
use crate::rti_common::{
    same_cache, same_links, same_node, same_tags, MinimumDelay, RTICommon, SchedulingNode,
    SchedulingNodeState, IS_IN_CYCLE, IS_IN_ZERO_DELAY_CYCLE,
};
use crate::tag::{Interval, Tag};
use vstd::prelude::*;
use vstd::set_lib::{lemma_int_range, lemma_len_subset, set_int_range};

verus! {

/// The position of a tag in the order of all tags.
pub open spec fn tag_rank(t: Tag) -> nat {
    ((t.time - i64::MIN) * 0x1_0000_0000 + t.microstep) as nat
}

/// The sum of the ranks of a sequence of tags.
pub open spec fn rank_sum(s: Seq<Tag>) -> nat
    decreases s.len(),
{
    if s.len() == 0 {
        0
    } else {
        rank_sum(s.drop_last()) + tag_rank(s.last())
    }
}

/// The number of tags below `FOREVER` in a sequence.
pub open spec fn count_finite(s: Seq<Tag>) -> nat
    decreases s.len(),
{
    if s.len() == 0 {
        0
    } else {
        count_finite(s.drop_last()) + if finite(s.last()) {
            1nat
        } else {
            0nat
        }
    }
}

/// The flags of a node after a cycle through it was found with accumulated
/// delay `cycle_delay`: the cycle bit is set, and the zero-delay bit is set
/// or cleared as the delay is zero or not.
pub open spec fn cycle_flags(flags: i32, cycle_delay: Tag) -> i32 {
    if cycle_delay == Tag::zero() {
        (flags | IS_IN_CYCLE) | IS_IN_ZERO_DELAY_CYCLE
    } else {
        (flags | IS_IN_CYCLE) & !IS_IN_ZERO_DELAY_CYCLE
    }
}

/// Whether the zero-delay-cycle bit is set in a node's flags.
pub open spec fn zero_delay_cycle_flag(flags: i32) -> bool {
    flags & IS_IN_ZERO_DELAY_CYCLE != 0
}

/// Whether the cycle bit is set in a node's flags.
pub open spec fn cycle_flag(flags: i32) -> bool {
    flags & IS_IN_CYCLE != 0
}

/// The flags after the relaxation has lowered the entry of the start node
/// from `before` to `after`, or has left it alone.
pub open spec fn flags_after(flags: i32, before: Tag, after: Tag) -> i32 {
    if after == before {
        flags
    } else {
        cycle_flags(flags, after)
    }
}

pub proof fn lemma_cycle_flags_twice(flags: i32, first: Tag, second: Tag)
    ensures
        cycle_flags(cycle_flags(flags, first), second) == cycle_flags(flags, second),
        zero_delay_cycle_flag(cycle_flags(flags, second)) <==> second == Tag::zero(),
        cycle_flag(cycle_flags(flags, second)),
{
    assert((((flags | 2) | 1) | 2) | 1 == (flags | 2) | 1) by (bit_vector);
    assert((((flags | 2) & !1) | 2) | 1 == (flags | 2) | 1) by (bit_vector);
    assert((((flags | 2) | 1) | 2) & !1 == (flags | 2) & !1) by (bit_vector);
    assert((((flags | 2) & !1) | 2) & !1 == (flags | 2) & !1) by (bit_vector);
    assert(((flags | 2) | 1) & 1 != 0) by (bit_vector);
    assert(((flags | 2) & !1) & 1 == 0) by (bit_vector);
    assert(((flags | 2) | 1) & 2 != 0) by (bit_vector);
    assert(((flags | 2) & !1) & 2 != 0) by (bit_vector);
}

proof fn lemma_rank_sum_update(s: Seq<Tag>, i: int, t: Tag)
    requires
        0 <= i < s.len(),
        t.lt(s[i]),
    ensures
        rank_sum(s.update(i, t)) < rank_sum(s),
    decreases s.len(),
{
    if i == s.len() - 1 {
        assert(s.update(i, t).drop_last() =~= s.drop_last());
    } else {
        assert(s.update(i, t).drop_last() =~= s.drop_last().update(i, t));
        lemma_rank_sum_update(s.drop_last(), i, t);
    }
}

proof fn lemma_count_finite_update(s: Seq<Tag>, i: int, t: Tag)
    requires
        0 <= i < s.len(),
        finite(t),
    ensures
        count_finite(s.update(i, t)) == count_finite(s) + if finite(s[i]) {
            0nat
        } else {
            1nat
        },
        count_finite(s) <= s.len(),
    decreases s.len(),
{
    lemma_count_finite_bound(s);
    if i == s.len() - 1 {
        assert(s.update(i, t).drop_last() =~= s.drop_last());
    } else {
        assert(s.update(i, t).drop_last() =~= s.drop_last().update(i, t));
        lemma_count_finite_update(s.drop_last(), i, t);
    }
}

proof fn lemma_count_finite_bound(s: Seq<Tag>)
    ensures
        count_finite(s) <= s.len(),
        (forall|v: int| 0 <= v < s.len() ==> !finite(#[trigger] s[v])) ==> count_finite(s) == 0,
    decreases s.len(),
{
    if s.len() > 0 {
        lemma_count_finite_bound(s.drop_last());
    }
}

/// A sequence of distinct vertices of a graph is no longer than the graph.
proof fn lemma_distinct_vertices(stack: Seq<int>, n: int)
    requires
        0 <= n,
        stack.no_duplicates(),
        forall|i: int| 0 <= i < stack.len() ==> 0 <= #[trigger] stack[i] < n,
    ensures
        stack.len() <= n,
{
    stack.unique_seq_to_set();
    lemma_int_range(0, n);
    assert(stack.to_set().subset_of(set_int_range(0, n))) by {
        assert forall|x: int| stack.to_set().contains(x) implies set_int_range(0, n).contains(
            x,
        ) by {
            let i = choose|i: int| 0 <= i < stack.len() && stack[i] == x;
            assert(0 <= stack[i] < n);
        }
    }
    lemma_len_subset(stack.to_set(), set_int_range(0, n));
}

/// The state of a relaxation from `start` while the vertices of `stack` are
/// being expanded: the stack begins at the start and holds distinct
/// vertices whose entries are below `FOREVER` and ascend towards the top;
/// every entry is shaped as a delay and is witnessed by a walk unless it is
/// `FOREVER`; and every connected vertex off the stack, other than the
/// start, with an entry below `FOREVER` has all its connections relaxed.
pub open spec fn relaxing(g: Seq<Vertex>, start: int, pd: Seq<Tag>, stack: Seq<int>) -> bool {
    &&& graph_wf(g)
    &&& 0 <= start < g.len() <= u32::MAX
    &&& pd.len() == g.len()
    &&& stack.len() >= 1
    &&& stack[0] == start
    &&& stack.no_duplicates()
    &&& forall|i: int| 0 <= i < stack.len() ==> 0 <= #[trigger] stack[i] < g.len()
    &&& forall|i: int| 1 <= i < stack.len() ==> finite(pd[#[trigger] stack[i]])
    &&& forall|i: int, j: int|
        1 <= i <= j < stack.len() ==> pd[#[trigger] stack[i]].le(pd[#[trigger] stack[j]])
    &&& forall|v: int| 0 <= v < g.len() ==> delay_shaped(#[trigger] pd[v])
    &&& forall|v: int|
        0 <= v < g.len() && finite(pd[v]) ==> #[trigger] has_walk_with_delay(g, start, v, pd[v])
    &&& forall|v: int|
        0 <= v < g.len() && v != start && !stack.contains(v) && g[v].connected && finite(pd[v])
            ==> #[trigger] relaxed_upto(g, pd, v, pd[v], g[v].upstream.len() as int)
}

/// Lowering entries keeps relaxed connections relaxed.
proof fn lemma_relaxed_upto_lower(
    g: Seq<Vertex>,
    pd: Seq<Tag>,
    lower: Seq<Tag>,
    v: int,
    a: Tag,
    n: int,
)
    requires
        graph_wf(g),
        0 <= v < g.len(),
        pd.len() == g.len(),
        0 <= n <= g[v].upstream.len(),
        pointwise_le(lower, pd),
        relaxed_upto(g, pd, v, a, n),
    ensures
        relaxed_upto(g, lower, v, a, n),
{
    assert(vertex_wf(g, v));
    assert forall|j: int| 0 <= j < n implies #[trigger] edge_relaxed(g, lower, v, a, j) by {
        assert(edge_relaxed(g, pd, v, a, j));
        let u = g[v].upstream[j] as int;
        assert(lower[u].le(pd[u]));
    }
}

/// The delay from which the vertex on top of the stack is expanded.
pub open spec fn top_departure(pd: Seq<Tag>, stack: Seq<int>) -> Tag {
    if stack.len() == 1 {
        Tag::zero()
    } else {
        pd[stack.last()]
    }
}

/// A registry that is well formed has a well-formed connection graph.
pub proof fn lemma_graph_wf(rti: &RTICommon)
    requires
        rti.wf(),
    ensures
        graph_wf(rti.graph()),
        rti.graph().len() == rti.scheduling_nodes.len(),
        forall|v: int|
            0 <= v < rti.scheduling_nodes.len() ==> #[trigger] rti.graph()[v]
                == rti.scheduling_nodes[v].vertex(),
{
    let g = rti.graph();
    assert forall|v: int| 0 <= v < g.len() implies #[trigger] vertex_wf(g, v) by {
        assert(rti.scheduling_nodes[v].wf(rti.scheduling_nodes.len() as int));
        assert(g[v] == rti.scheduling_nodes[v].vertex());
        assert forall|j: int| 0 <= j < g[v].upstream.len() implies 0 <= #[trigger] g[v].upstream[j]
            < g.len() by {
            assert(0 <= rti.scheduling_nodes[v].upstream[j] < rti.scheduling_nodes.len());
        }
    }
}

/// Putting a new vertex on the stack after its entry was lowered to `c`.
proof fn lemma_relaxing_push(
    g: Seq<Vertex>,
    start: int,
    pd: Seq<Tag>,
    stack: Seq<int>,
    walk: Seq<(int, int)>,
    j: int,
    u: int,
    c: Tag,
)
    requires
        relaxing(g, start, pd, stack),
        is_walk(g, start, walk),
        walk.len() == stack.len() - 1,
        walk_end(g, start, walk) == stack.last(),
        walk_delay(g, walk) == top_departure(pd, stack),
        hop_ok(g, (stack.last(), j)),
        u == g[stack.last()].upstream[j],
        c == top_departure(pd, stack).delay(g[stack.last()].delay[j]),
        c.lt(pd[u]),
    ensures
        0 <= u < g.len(),
        finite(c),
        delay_shaped(c),
        top_departure(pd, stack).le(c),
        forall|k: int| 1 <= k < stack.len() ==> #[trigger] stack[k] != u,
        stack.len() <= g.len(),
        is_walk(g, start, walk.push((stack.last(), j))),
        walk_end(g, start, walk.push((stack.last(), j))) == u,
        walk_delay(g, walk.push((stack.last(), j))) == c,
        u != start ==> relaxing(g, start, pd.update(u, c), stack.push(u)),
        u == start ==> relaxing(g, start, pd.update(u, c), stack),
        pointwise_le(pd.update(u, c), pd),
{
    let top = stack.last();
    let a = top_departure(pd, stack);
    let d = g[top].delay[j];
    let pd2 = pd.update(u, c);
    assert(vertex_wf(g, top));
    lemma_distinct_vertices(stack, g.len() as int);
    lemma_walk_delay_shape(g, start, walk);
    assert(delay_shaped(pd[u]));
    if stack.len() > 1 {
        assert(finite(pd[stack[stack.len() - 1]]));
    }
    lemma_delay_grows(a, d);
    lemma_walk_push(g, start, walk, (top, j));
    assert forall|k: int| 1 <= k < stack.len() implies #[trigger] stack[k] != u by {
        if stack[k] == u {
            assert(pd[stack[k]].le(pd[stack[stack.len() - 1]]));
        }
    }
    let walk2 = walk.push((top, j));
    assert(is_walk(g, start, walk2) && 1 <= walk2.len() <= g.len() && walk_end(g, start, walk2)
        == u && walk_delay(g, walk2) == c);
    assert(has_walk_with_delay(g, start, u, c));
    assert(pointwise_le(pd2, pd));
    let stack2 = if u != start {
        stack.push(u)
    } else {
        stack
    };
    assert forall|v: int| 0 <= v < g.len() && finite(pd2[v]) implies #[trigger] has_walk_with_delay(
        g,
        start,
        v,
        pd2[v],
    ) by {
        if v != u {
            assert(has_walk_with_delay(g, start, v, pd[v]));
        }
    }
    assert forall|v: int|
        0 <= v < g.len() && v != start && !stack2.contains(v) && g[v].connected && finite(
            pd2[v],
        ) implies #[trigger] relaxed_upto(g, pd2, v, pd2[v], g[v].upstream.len() as int) by {
        if u != start {
            assert(stack2[stack.len() as int] == u);
        }
        assert(v != u);
        assert(!stack.contains(v)) by {
            if stack.contains(v) {
                let k = choose|k: int| 0 <= k < stack.len() && stack[k] == v;
                assert(stack2[k] == v);
            }
        }
        assert(relaxed_upto(g, pd, v, pd[v], g[v].upstream.len() as int));
        lemma_relaxed_upto_lower(g, pd, pd2, v, pd[v], g[v].upstream.len() as int);
    }
    if u != start {
        assert(stack2.no_duplicates()) by {
            assert forall|x: int, y: int|
                0 <= x < stack2.len() && 0 <= y < stack2.len() && x != y implies stack2[x]
                != stack2[y] by {
                if x < stack.len() && y < stack.len() {
                    assert(stack[x] != stack[y]);
                } else if x < stack.len() {
                    if x >= 1 {
                        assert(stack[x] != u);
                    }
                } else {
                    if y >= 1 {
                        assert(stack[y] != u);
                    }
                }
            }
        }
        assert forall|x: int, y: int|
            1 <= x <= y < stack2.len() implies pd2[#[trigger] stack2[x]].le(
            pd2[#[trigger] stack2[y]],
        ) by {
            if x < stack.len() {
                assert(stack[x] != u);
                assert(pd[stack[x]].le(pd[stack[stack.len() - 1]]));
            }
            if y < stack.len() {
                assert(stack[y] != u);
                assert(pd[stack[x]].le(pd[stack[y]]));
            }
        }
        assert forall|x: int| 1 <= x < stack2.len() implies finite(pd2[#[trigger] stack2[x]]) by {
            if x < stack.len() {
                assert(stack[x] != u);
                assert(finite(pd[stack[x]]));
            }
        }
    } else {
        assert forall|x: int, y: int| 1 <= x <= y < stack.len() implies pd2[#[trigger] stack[x]].le(
            pd2[#[trigger] stack[y]],
        ) by {
            assert(stack[x] != u);
            assert(stack[y] != u);
            assert(pd[stack[x]].le(pd[stack[y]]));
        }
        assert forall|x: int| 1 <= x < stack.len() implies finite(pd2[#[trigger] stack[x]]) by {
            assert(stack[x] != u);
            assert(finite(pd[stack[x]]));
        }
    }
}

/// Taking the top vertex off the stack once all its connections are
/// relaxed.
proof fn lemma_relaxing_pop(g: Seq<Vertex>, start: int, pd: Seq<Tag>, stack: Seq<int>, u: int)
    requires
        relaxing(g, start, pd, stack.push(u)),
        stack.len() >= 1,
        g[u].connected ==> relaxed_upto(g, pd, u, pd[u], g[u].upstream.len() as int),
    ensures
        relaxing(g, start, pd, stack),
{
    let stack2 = stack.push(u);
    assert forall|x: int| 0 <= x < stack.len() implies stack2[x] == stack[x] by {}
    assert(stack[0] == stack2[0]);
    assert(stack.no_duplicates()) by {
        assert forall|x: int, y: int|
            0 <= x < stack.len() && 0 <= y < stack.len() && x != y implies stack[x] != stack[y] by {
            assert(stack2[x] != stack2[y]);
        }
    }
    assert forall|x: int| 0 <= x < stack.len() implies 0 <= #[trigger] stack[x] < g.len() by {
        assert(0 <= stack2[x] < g.len());
    }
    assert forall|x: int| 1 <= x < stack.len() implies finite(pd[#[trigger] stack[x]]) by {
        assert(finite(pd[stack2[x]]));
    }
    assert forall|x: int, y: int| 1 <= x <= y < stack.len() implies pd[#[trigger] stack[x]].le(
        pd[#[trigger] stack[y]],
    ) by {
        assert(pd[stack2[x]].le(pd[stack2[y]]));
    }
    assert forall|v: int|
        0 <= v < g.len() && v != start && !stack.contains(v) && g[v].connected && finite(
            pd[v],
        ) implies #[trigger] relaxed_upto(g, pd, v, pd[v], g[v].upstream.len() as int) by {
        if v != u {
            assert(!stack2.contains(v)) by {
                if stack2.contains(v) {
                    let k = choose|k: int| 0 <= k < stack2.len() && stack2[k] == v;
                    assert(k < stack.len());
                    assert(stack[k] == v);
                }
            }
        }
    }
}

impl SchedulingNode {
    /// Expands one vertex of the relaxation from `end_idx`: the end itself
    /// where `intermediate_idx` is negative, else the vertex
    /// `intermediate_idx`, whose entry in `path_delays` was just lowered.
    /// For each upstream connection of a connected vertex, the entry of the
    /// connection's origin is lowered to the delay through the connection
    /// where that is less, and the origin is expanded in turn, unless it is
    /// the end: then a cycle is closed and `flags` records it. `count` keeps
    /// the number of entries below `FOREVER`.
    fn _update_min_delays_upstream(
        rti: &RTICommon,
        end_idx: i32,
        intermediate_idx: i32,
        path_delays: &mut Vec<Tag>,
        count: &mut u64,
        flags: &mut i32,
        Ghost(stack): Ghost<Seq<int>>,
        Ghost(walk): Ghost<Seq<(int, int)>>,
    )
        requires
            rti.wf(),
            0 <= end_idx < rti.scheduling_nodes.len(),
            intermediate_idx < rti.scheduling_nodes.len(),
            relaxing(rti.graph(), end_idx as int, old(path_delays)@, stack),
            intermediate_idx < 0 <==> stack.len() == 1,
            intermediate_idx >= 0 ==> stack.last() == intermediate_idx,
            is_walk(rti.graph(), end_idx as int, walk),
            walk.len() == stack.len() - 1,
            walk_end(rti.graph(), end_idx as int, walk) == stack.last(),
            walk_delay(rti.graph(), walk) == top_departure(old(path_delays)@, stack),
            *old(count) == count_finite(old(path_delays)@),
        ensures
            relaxing(rti.graph(), end_idx as int, final(path_delays)@, stack),
            pointwise_le(final(path_delays)@, old(path_delays)@),
            rank_sum(final(path_delays)@) <= rank_sum(old(path_delays)@),
            forall|k: int|
                1 <= k < stack.len() ==> final(path_delays)@[#[trigger] stack[k]] == old(
                    path_delays,
                )@[stack[k]],
            rti.graph()[stack.last()].connected ==> relaxed_upto(
                rti.graph(),
                final(path_delays)@,
                stack.last(),
                top_departure(final(path_delays)@, stack),
                rti.graph()[stack.last()].upstream.len() as int,
            ),
            *final(count) == count_finite(final(path_delays)@),
            *final(flags) == flags_after(
                *old(flags),
                old(path_delays)@[end_idx as int],
                final(path_delays)@[end_idx as int],
            ),
        decreases rank_sum(old(path_delays)@),
    {
        let ghost g = rti.graph();
        let ghost end = end_idx as int;
        let ghost pd0 = path_delays@;
        let ghost flags0 = *flags;
        proof {
            lemma_graph_wf(rti);
        }
        // On the first call the delay so far is zero; afterwards it is the
        // delay recorded for the intermediate vertex.
        let mut delay_from_intermediate_so_far = Tag::zero_tag();
        let mut inter: usize = end_idx as usize;
        if intermediate_idx >= 0 {
            inter = intermediate_idx as usize;
            delay_from_intermediate_so_far = path_delays[inter];
        }
        assert(inter == stack.last());
        assert(delay_from_intermediate_so_far == top_departure(pd0, stack));
        let intermediate = &rti.scheduling_nodes[inter];
        assert(g[inter as int] == intermediate.vertex());
        if intermediate.state == SchedulingNodeState::NotConnected {
            // No point in checking the nodes upstream of a node that is not
            // connected.
            return ;
        }
        assert(intermediate.wf(rti.scheduling_nodes.len() as int));
        let num_upstream: i32 = intermediate.num_upstream;
        let mut i: i32 = 0;
        while i < num_upstream
            invariant
                0 <= i <= num_upstream,
                rti.wf(),
                pd0 == old(path_delays)@,
                g == rti.graph(),
                end == end_idx,
                0 <= end_idx < rti.scheduling_nodes.len(),
                inter < rti.scheduling_nodes.len(),
                inter == stack.last(),
                *intermediate == rti.scheduling_nodes[inter as int],
                g[inter as int] == intermediate.vertex(),
                g[inter as int].connected,
                intermediate.wf(rti.scheduling_nodes.len() as int),
                num_upstream == intermediate.num_upstream,
                intermediate_idx < 0 <==> stack.len() == 1,
                is_walk(g, end, walk),
                walk.len() == stack.len() - 1,
                walk_end(g, end, walk) == stack.last(),
                walk_delay(g, walk) == delay_from_intermediate_so_far,
                delay_from_intermediate_so_far == top_departure(path_delays@, stack),
                relaxing(g, end, path_delays@, stack),
                pointwise_le(path_delays@, pd0),
                rank_sum(path_delays@) <= rank_sum(pd0),
                forall|k: int|
                    1 <= k < stack.len() ==> path_delays@[#[trigger] stack[k]] == pd0[stack[k]],
                relaxed_upto(
                    g,
                    path_delays@,
                    inter as int,
                    delay_from_intermediate_so_far,
                    i as int,
                ),
                *count == count_finite(path_delays@),
                *flags == flags_after(flags0, pd0[end], path_delays@[end]),
            decreases num_upstream - i,
        {
            let upstream_idx: i32 = intermediate.upstream[i as usize];
            let upstream_delay: Interval = intermediate.upstream_delay[i as usize];
            let u: usize = upstream_idx as usize;
            let ghost pd1 = path_delays@;
            let ghost flags1 = *flags;
            // Add the connection's delay to the delay so far.
            let path_delay = Tag::lf_delay_tag(&delay_from_intermediate_so_far, upstream_delay);
            if Tag::lf_tag_compare(&path_delay, &path_delays[u]) < 0 {
                proof {
                    lemma_relaxing_push(g, end, pd1, stack, walk, i as int, u as int, path_delay);
                    lemma_count_finite_update(pd1, u as int, path_delay);
                    lemma_rank_sum_update(pd1, u as int, path_delay);
                    lemma_relaxed_upto_lower(
                        g,
                        pd1,
                        pd1.update(u as int, path_delay),
                        inter as int,
                        delay_from_intermediate_so_far,
                        i as int,
                    );
                }
                if path_delays[u].time == crate::tag::FOREVER {
                    // A first path to this node.
                    *count = *count + 1;
                }
                path_delays[u] = path_delay;
                let ghost pd2 = path_delays@;
                assert(pd2 == pd1.update(u as int, path_delay));
                assert(pointwise_le(pd2, pd0));
                if end_idx != upstream_idx {
                    // The delay recorded for the upstream node has changed:
                    // update the nodes upstream of it.
                    Self::_update_min_delays_upstream(
                        rti,
                        end_idx,
                        upstream_idx,
                        path_delays,
                        count,
                        flags,
                        Ghost(stack.push(u as int)),
                        Ghost(walk.push((inter as int, i as int))),
                    );
                    proof {
                        let pd3 = path_delays@;
                        let stack2 = stack.push(u as int);
                        assert(stack2[stack.len() as int] == u);
                        assert(pd3[u as int] == pd2[u as int]);
                        assert forall|k: int| 1 <= k < stack.len() implies pd3[#[trigger] stack[k]]
                            == pd0[stack[k]] by {
                            assert(stack2[k] == stack[k]);
                            assert(stack[k] != u);
                        }
                        lemma_relaxing_pop(g, end, pd3, stack, u as int);
                        assert(pointwise_le(pd3, pd0));
                        lemma_relaxed_upto_lower(
                            g,
                            pd2,
                            pd3,
                            inter as int,
                            delay_from_intermediate_so_far,
                            i as int,
                        );
                        lemma_cycle_flags_twice(flags0, pd2[end], pd3[end]);
                        assert(pd3[end].le(pd2[end]));
                        assert(pd2[end].le(pd0[end]));
                        assert(edge_relaxed(
                            g,
                            pd3,
                            inter as int,
                            delay_from_intermediate_so_far,
                            i as int,
                        ));
                    }
                } else {
                    // A cycle is closed.
                    *flags = *flags | IS_IN_CYCLE;
                    let no_delay = match upstream_delay {
                        None => true,
                        Some(d) => d < 0,
                    };
                    if Tag::lf_tag_compare(&path_delay, &Tag::zero_tag()) == 0 && no_delay {
                        *flags = *flags | IS_IN_ZERO_DELAY_CYCLE;
                    } else {
                        *flags = *flags & !IS_IN_ZERO_DELAY_CYCLE;
                    }
                    proof {
                        lemma_walk_delay_shape(g, end, walk);
                        lemma_distinct_vertices(stack, g.len() as int);
                        assert(*flags == cycle_flags(flags1, path_delay));
                        lemma_cycle_flags_twice(flags0, pd1[end], path_delay);
                        assert(edge_relaxed(
                            g,
                            pd2,
                            inter as int,
                            delay_from_intermediate_so_far,
                            i as int,
                        ));
                    }
                }
            } else {
                assert(edge_relaxed(
                    g,
                    pd1,
                    inter as int,
                    delay_from_intermediate_so_far,
                    i as int,
                ));
            }
            i = i + 1;
        }
    }
}

/// Whether a table of minimum delays has an entry for vertex `u`.
pub open spec fn listed(md: Seq<MinimumDelay>, u: int) -> bool {
    exists|k: int| 0 <= k < md.len() && (#[trigger] md[k]).id == u
}

/// Whether `md` is the table of minimum delays of vertex `start`: its
/// entries are in ascending order of id, each holds the least delay of a
/// vertex of the graph, which is below `FOREVER`, and the vertices with an
/// entry are those that `start` reaches.
pub open spec fn is_min_delay_table(g: Seq<Vertex>, start: int, md: Seq<MinimumDelay>) -> bool {
    &&& forall|k: int|
        0 <= k < md.len() ==> {
            &&& 0 <= (#[trigger] md[k]).id < g.len()
            &&& finite(md[k].min_delay)
            &&& least_delay(g, start, md[k].id as int, md[k].min_delay)
        }
    &&& forall|k: int, l: int|
        0 <= k < l < md.len() ==> (#[trigger] md[k]).id < (#[trigger] md[l]).id
    &&& forall|u: int| 0 <= u < g.len() ==> (#[trigger] reaches(g, start, u) <==> listed(md, u))
}

/// How the flags of vertex `start` follow from the flags before its table
/// `md` was built: they are as before where the table has no entry for
/// `start` itself, and record a cycle with the delay of that entry where it
/// has one.
pub open spec fn flags_built(before: i32, after: i32, start: int, md: Seq<MinimumDelay>) -> bool {
    &&& !listed(md, start) ==> after == before
    &&& forall|k: int|
        0 <= k < md.len() && (#[trigger] md[k]).id == start ==> after == cycle_flags(
            before,
            md[k].min_delay,
        )
}

/// What the cache and the flags of a node are after the cache was brought
/// up to date in a registry with connection graph `g`: a cache that was
/// built is left alone; one that was not is the table of the node, its
/// length is recorded, and the flags record the cycle through the node, if
/// any.
pub open spec fn cache_updated(
    g: Seq<Vertex>,
    before: SchedulingNode,
    after: SchedulingNode,
) -> bool {
    if before.num_min_delays != 0 {
        same_cache(after, before) && after.flags == before.flags
    } else {
        &&& after.num_min_delays == after.min_delays.len()
        &&& is_min_delay_table(g, before.id as int, after.min_delays@)
        &&& flags_built(before.flags, after.flags, before.id as int, after.min_delays@)
    }
}

/// What a registry is after the cache of node `idx` was brought up to
/// date: that node has its cache and flags updated and is otherwise as
/// before, and so are the other nodes and the rest of the registry.
pub open spec fn registry_min_delays_updated(
    before: &RTICommon,
    after: &RTICommon,
    idx: int,
) -> bool {
    &&& after.wf()
    &&& after.same_frame(before)
    &&& after.graph() == before.graph()
    &&& forall|i: int|
        0 <= i < before.scheduling_nodes.len() && i != idx ==> same_node(
            #[trigger] after.scheduling_nodes[i],
            before.scheduling_nodes[i],
        )
    &&& same_links(after.scheduling_nodes[idx], before.scheduling_nodes[idx])
    &&& same_tags(after.scheduling_nodes[idx], before.scheduling_nodes[idx])
    &&& after.scheduling_nodes[idx].state == before.scheduling_nodes[idx].state
    &&& cache_updated(before.graph(), before.scheduling_nodes[idx], after.scheduling_nodes[idx])
}

impl SchedulingNode {
    /// Brings the cache of minimum delays of node `node_idx` up to date. A
    /// cache with entries is taken to be valid. One without is built from
    /// the connections of the registry as they are now.
    pub fn update_min_delays_upstream(rti: &mut RTICommon, node_idx: u16)
        requires
            old(rti).wf(),
            node_idx < old(rti).scheduling_nodes.len(),
        ensures
            registry_min_delays_updated(old(rti), final(rti), node_idx as int),
            caches_valid(old(rti)) ==> caches_valid(final(rti)),
            flags_follow_caches(old(rti)) ==> flags_follow_caches(final(rti)),
            flags_sound(old(rti)) ==> flags_sound(final(rti)),
    {
        let ghost before_update = *rti;
        let ghost g = rti.graph();
        let ghost end = node_idx as int;
        let idx: usize = node_idx as usize;
        proof {
            lemma_graph_wf(rti);
        }
        assert(rti.scheduling_nodes[idx as int].wf(rti.scheduling_nodes.len() as int));
        let num_min_delays: u64 = rti.scheduling_nodes[idx].num_min_delays;
        let number_of_scheduling_nodes: usize = rti.scheduling_nodes.len();
        // A cache with entries is valid.
        if num_min_delays != 0 {
            proof {
                if caches_valid(&before_update) {
                    lemma_caches_stay_valid(&before_update, rti);
                }
                if flags_follow_caches(&before_update) {
                    lemma_flags_still_follow(&before_update, rti);
                }
                if flags_sound(&before_update) {
                    lemma_flags_stay_sound(&before_update, rti);
                }
            }
            return ;
        }
        // The delays of the paths found so far, `FOREVER` where none is.
        let mut path_delays: Vec<Tag> = Vec::new();
        // The number of entries of path_delays below `FOREVER`.
        let mut count: u64 = 0;
        let mut n: usize = 0;
        while n < number_of_scheduling_nodes
            invariant
                n <= number_of_scheduling_nodes,
                path_delays.len() == n,
                forall|v: int| 0 <= v < n ==> #[trigger] path_delays[v] == Tag::forever(),
            decreases number_of_scheduling_nodes - n,
        {
            path_delays.push(Tag::forever_tag());
            n = n + 1;
        }
        let mut flags: i32 = rti.scheduling_nodes[idx].flags;
        let ghost flags0 = flags;
        let ghost first_stack: Seq<int> = seq![end];
        let ghost first_walk: Seq<(int, int)> = Seq::empty();
        proof {
            let pd = path_delays@;
            let stack = seq![end];
            lemma_count_finite_bound(pd);
            assert(stack.no_duplicates());
            assert(relaxing(g, end, pd, stack));
            assert(is_walk(g, end, Seq::<(int, int)>::empty()));
        }
        Self::_update_min_delays_upstream(
            rti,
            node_idx as i32,
            -1,
            &mut path_delays,
            &mut count,
            &mut flags,
            Ghost(first_stack),
            Ghost(first_walk),
        );
        let ghost pd = path_delays@;
        proof {
            let stack = seq![end];
            assert forall|v: int|
                0 <= v < g.len() && g[v].connected && (v == end || finite(pd[v]))
                    implies #[trigger] relaxed_upto(
                g,
                pd,
                v,
                departure(end, pd, v),
                g[v].upstream.len() as int,
            ) by {
                if v != end {
                    assert(!stack.contains(v)) by {
                        if stack.contains(v) {
                            let k = choose|k: int| 0 <= k < stack.len() && stack[k] == v;
                        }
                    }
                }
            }
            assert(settled(g, end, pd));
        }
        // Put the results onto the node.
        let mut min_delays: Vec<MinimumDelay> = Vec::new();
        let mut i: usize = 0;
        while i < number_of_scheduling_nodes
            invariant
                i <= number_of_scheduling_nodes,
                number_of_scheduling_nodes == g.len(),
                number_of_scheduling_nodes <= crate::rti_common::MAX_SCHEDULING_NODES,
                path_delays@ == pd,
                pd.len() == g.len(),
                min_delays.len() == count_finite(pd.take(i as int)),
                min_delays.len() <= i,
                forall|k: int|
                    0 <= k < min_delays.len() ==> {
                        &&& 0 <= (#[trigger] min_delays[k]).id < i
                        &&& finite(min_delays[k].min_delay)
                        &&& min_delays[k].min_delay == pd[min_delays[k].id as int]
                    },
                forall|k: int, l: int|
                    0 <= k < l < min_delays.len() ==> (#[trigger] min_delays[k]).id
                        < (#[trigger] min_delays[l]).id,
                forall|u: int|
                    0 <= u < i ==> (finite(#[trigger] pd[u]) <==> listed(min_delays@, u)),
            decreases number_of_scheduling_nodes - i,
        {
            let ghost md0 = min_delays@;
            assert(pd.take(i as int + 1).drop_last() =~= pd.take(i as int));
            if Tag::lf_tag_compare(&path_delays[i], &Tag::forever_tag()) < 0 {
                // Node i is upstream.
                let min_delay = MinimumDelay::new(i as i32, path_delays[i]);
                min_delays.push(min_delay);
                proof {
                    let md1 = min_delays@;
                    assert(md1[md0.len() as int].id == i);
                    assert forall|u: int|
                        0 <= u < i + 1 implies (finite(#[trigger] pd[u]) <==> listed(
                        md1,
                        u,
                    )) by {
                        if u < i {
                            if listed(md0, u) {
                                let k = choose|k: int|
                                    0 <= k < md0.len() && (#[trigger] md0[k]).id == u;
                                assert(md1[k].id == u);
                            }
                            if listed(md1, u) {
                                let k = choose|k: int|
                                    0 <= k < md1.len() && (#[trigger] md1[k]).id == u;
                                assert(md0[k].id == u);
                            }
                        }
                    }
                }
            } else {
                proof {
                    assert forall|u: int|
                        0 <= u < i + 1 implies (finite(#[trigger] pd[u]) <==> listed(
                        md0,
                        u,
                    )) by {
                        if listed(md0, u) {
                            let k = choose|k: int|
                                0 <= k < md0.len() && (#[trigger] md0[k]).id == u;
                        }
                    }
                }
            }
            i = i + 1;
        }
        proof {
            assert(pd.take(i as int) =~= pd);
            let md = min_delays@;
            assert forall|k: int| 0 <= k < md.len() implies {
                &&& 0 <= (#[trigger] md[k]).id < g.len()
                &&& finite(md[k].min_delay)
                &&& least_delay(g, end, md[k].id as int, md[k].min_delay)
            } by {
                lemma_settled_is_exact(g, end, pd, md[k].id as int);
            }
            assert forall|u: int|
                0 <= u < g.len() implies (#[trigger] reaches(g, end, u) <==> listed(
                md,
                u,
            )) by {
                lemma_settled_is_exact(g, end, pd, u);
            }
            assert(is_min_delay_table(g, end, md));
            if !listed(md, end) {
                assert(!finite(pd[end]));
            }
            assert forall|k: int| 0 <= k < md.len() && (#[trigger] md[k]).id == end implies flags
                == cycle_flags(flags0, md[k].min_delay) by {}
        }
        let ghost before = rti.scheduling_nodes[idx as int];
        rti.scheduling_nodes[idx].num_min_delays = count;
        rti.scheduling_nodes[idx].min_delays = min_delays;
        rti.scheduling_nodes[idx].flags = flags;
        proof {
            let after = rti.scheduling_nodes[idx as int];
            assert(after.wf(rti.scheduling_nodes.len() as int));
            assert(rti.graph() =~= g);
            if caches_valid(&before_update) {
                lemma_caches_stay_valid(&before_update, rti);
            }
            if flags_follow_caches(&before_update) {
                lemma_flags_still_follow(&before_update, rti);
            }
            if flags_sound(&before_update) {
                lemma_flags_stay_sound(&before_update, rti);
            }
        }
    }

    /// Whether node `fed_id` lies on a zero-delay cycle, as its flags say
    /// once its cache of minimum delays is up to date.
    pub fn is_in_zero_delay_cycle(rti: &mut RTICommon, fed_id: u16) -> (result: bool)
        requires
            old(rti).wf(),
            fed_id < old(rti).scheduling_nodes.len(),
        ensures
            registry_min_delays_updated(old(rti), final(rti), fed_id as int),
            result == zero_delay_cycle_flag(final(rti).scheduling_nodes[fed_id as int].flags),
            caches_valid(old(rti)) ==> caches_valid(final(rti)),
            flags_follow_caches(old(rti)) ==> flags_follow_caches(final(rti)),
            flags_sound(old(rti)) ==> flags_sound(final(rti)),
    {
        Self::update_min_delays_upstream(rti, fed_id);
        let flags: i32 = rti.scheduling_nodes[fed_id as usize].flags;
        (flags & IS_IN_ZERO_DELAY_CYCLE) != 0
    }
}

/// Once the cache of node `n` has been built, it lists a node `u` exactly
/// if `u` is another node than `n` and is transitively upstream of `n`.
/// The one exception is `n` itself where it lies on a cycle: it is then
/// listed too, with the least delay around a cycle.
pub proof fn lemma_min_delays_list_the_upstream_nodes(
    before: &RTICommon,
    after: &RTICommon,
    n: int,
    u: int,
)
    requires
        before.wf(),
        0 <= n < before.scheduling_nodes.len(),
        0 <= u < before.scheduling_nodes.len(),
        before.scheduling_nodes[n].num_min_delays == 0,
        registry_min_delays_updated(before, after, n),
        !(u == n && reaches(before.graph(), n, n)),
    ensures
        listed(after.scheduling_nodes[n].min_delays@, u) <==> reaches(before.graph(), n, u) && u
            != n,
{
    lemma_graph_wf(before);
    assert(before.scheduling_nodes[n].id == n);
}

/// Once the cache of node `n` has been built, the zero-delay-cycle flag of
/// `n` is set exactly if a cycle of at most `u32::MAX` connections leads
/// through `n` and accumulates a delay of zero. This is stated for a node
/// whose flag was clear before or which lies on some cycle: a flag that was
/// set stays set where no cycle is found.
pub proof fn lemma_zero_delay_cycle_flag(before: &RTICommon, after: &RTICommon, n: int)
    requires
        before.wf(),
        0 <= n < before.scheduling_nodes.len(),
        before.scheduling_nodes[n].num_min_delays == 0,
        registry_min_delays_updated(before, after, n),
        !zero_delay_cycle_flag(before.scheduling_nodes[n].flags) || reaches(before.graph(), n, n),
    ensures
        zero_delay_cycle_flag(after.scheduling_nodes[n].flags) <==> on_zero_delay_cycle(
            before.graph(),
            n,
        ),
{
    lemma_graph_wf(before);
    let g = before.graph();
    let md = after.scheduling_nodes[n].min_delays@;
    let flags = before.scheduling_nodes[n].flags;
    assert(before.scheduling_nodes[n].id == n);
    if on_zero_delay_cycle(g, n) {
        let w = choose|w: Seq<(int, int)>|
            #[trigger] is_walk(g, n, w) && 1 <= w.len() <= u32::MAX && walk_end(g, n, w) == n
                && walk_delay(g, w) == Tag::zero();
        assert(is_walk(g, n, w) && 1 <= w.len() && walk_end(g, n, w) == n && finite(
            walk_delay(g, w),
        ));
        assert(reaches(g, n, n));
    }
    if listed(md, n) {
        let k = choose|k: int| 0 <= k < md.len() && (#[trigger] md[k]).id == n;
        let least = md[k].min_delay;
        lemma_cycle_flags_twice(flags, least, least);
        assert(least_delay(g, n, n, least));
        let w = choose|w: Seq<(int, int)>|
            #[trigger] is_walk(g, n, w) && 1 <= w.len() <= g.len() && walk_end(g, n, w) == n
                && walk_delay(g, w) == least;
        lemma_walk_delay_shape(g, n, w);
        if least == Tag::zero() {
            assert(is_walk(g, n, w) && 1 <= w.len() <= u32::MAX && walk_end(g, n, w) == n
                && walk_delay(g, w) == Tag::zero());
        }
        if on_zero_delay_cycle(g, n) {
            let z = choose|z: Seq<(int, int)>|
                #[trigger] is_walk(g, n, z) && 1 <= z.len() <= u32::MAX && walk_end(g, n, z) == n
                    && walk_delay(g, z) == Tag::zero();
            assert(least.le(walk_delay(g, z)));
        }
    }
}

/// Once the cache of node `n` has been built, the cycle flag of `n` is set
/// exactly if a cycle leads through `n` with an accumulated delay below
/// `FOREVER`. This is stated for a node whose flag was clear before or
/// which lies on such a cycle: a flag that was set stays set where no
/// cycle is found.
pub proof fn lemma_cycle_flag(before: &RTICommon, after: &RTICommon, n: int)
    requires
        before.wf(),
        0 <= n < before.scheduling_nodes.len(),
        before.scheduling_nodes[n].num_min_delays == 0,
        registry_min_delays_updated(before, after, n),
        !cycle_flag(before.scheduling_nodes[n].flags) || reaches(before.graph(), n, n),
    ensures
        cycle_flag(after.scheduling_nodes[n].flags) <==> reaches(before.graph(), n, n),
{
    lemma_graph_wf(before);
    let md = after.scheduling_nodes[n].min_delays@;
    assert(before.scheduling_nodes[n].id == n);
    if listed(md, n) {
        let k = choose|k: int| 0 <= k < md.len() && (#[trigger] md[k]).id == n;
        lemma_cycle_flags_twice(before.scheduling_nodes[n].flags, md[k].min_delay, md[k].min_delay);
    }
}

/// Whether every cache of the registry that is built holds the table of
/// minimum delays of its node, for the connections as they are.
pub open spec fn caches_valid(rti: &RTICommon) -> bool {
    forall|n: int|
        0 <= n < rti.scheduling_nodes.len() && (#[trigger] rti.scheduling_nodes[n]).num_min_delays
            != 0 ==> is_min_delay_table(rti.graph(), n, rti.scheduling_nodes[n].min_delays@)
}

/// Whether flags are those of a node on a cycle with the least delay
/// `cycle_delay`: the cycle bit is set, and the zero-delay bit is set
/// exactly if the delay is zero.
pub open spec fn flags_of_cycle(flags: i32, cycle_delay: Tag) -> bool {
    cycle_flag(flags) && (zero_delay_cycle_flag(flags) <==> cycle_delay == Tag::zero())
}

/// Whether the flags of every node follow its cache: where the table of a
/// node has an entry for the node itself, the node lies on a cycle, and
/// its flags are those of a node on a cycle with the delay of that entry.
/// The flags of a node whose table has no such entry are under no
/// condition: a build that finds no cycle leaves the flags as they were.
pub open spec fn flags_follow_caches(rti: &RTICommon) -> bool {
    forall|n: int, k: int|
        0 <= n < rti.scheduling_nodes.len() && 0 <= k < rti.scheduling_nodes[n].min_delays@.len()
            && (#[trigger] rti.scheduling_nodes[n].min_delays@[k]).id == n ==> flags_of_cycle(
            rti.scheduling_nodes[n].flags,
            rti.scheduling_nodes[n].min_delays@[k].min_delay,
        )
}

/// Flags that follow the caches still do where each cache is emptied, or
/// kept together with the flags of its node, or built as the table of its
/// node.
pub proof fn lemma_flags_still_follow(before: &RTICommon, after: &RTICommon)
    requires
        before.wf(),
        flags_follow_caches(before),
        after.scheduling_nodes.len() == before.scheduling_nodes.len(),
        forall|n: int|
            0 <= n < before.scheduling_nodes.len() ==> {
                let b = before.scheduling_nodes[n];
                let a = #[trigger] after.scheduling_nodes[n];
                ||| a.min_delays@.len() == 0
                ||| same_cache(a, b) && a.flags == b.flags
                ||| a.id == b.id && cache_updated(before.graph(), b, a)
            },
    ensures
        flags_follow_caches(after),
{
    assert forall|n: int, k: int|
        0 <= n < after.scheduling_nodes.len() && 0 <= k < after.scheduling_nodes[n].min_delays@.len()
            && (#[trigger] after.scheduling_nodes[n].min_delays@[k]).id == n implies flags_of_cycle(
        after.scheduling_nodes[n].flags,
        after.scheduling_nodes[n].min_delays@[k].min_delay,
    ) by {
        let b = before.scheduling_nodes[n];
        let a = after.scheduling_nodes[n];
        assert(b.id == n);
        assert(b.wf(before.scheduling_nodes.len() as int));
        if same_cache(a, b) && a.flags == b.flags {
            assert(b.min_delays@[k].id == n);
        } else {
            lemma_cycle_flags_twice(
                b.flags,
                a.min_delays@[k].min_delay,
                a.min_delays@[k].min_delay,
            );
            if b.num_min_delays != 0 {
                assert(b.min_delays@[k].id == n);
            }
        }
    }
}

/// Whether no flag says more than there is: a node with the zero-delay bit
/// set lies on a zero-delay cycle, and a node with the cycle bit set lies
/// on a cycle. A node that leaves, and a connection that changes, can
/// leave a flag behind that says more.
pub open spec fn flags_sound(rti: &RTICommon) -> bool {
    forall|n: int|
        0 <= n < rti.scheduling_nodes.len() ==> {
            let flags = (#[trigger] rti.scheduling_nodes[n]).flags;
            &&& zero_delay_cycle_flag(flags) ==> on_zero_delay_cycle(rti.graph(), n)
            &&& cycle_flag(flags) ==> reaches(rti.graph(), n, n)
        }
}

/// Flags that say nothing are sound: so are the flags of a registry whose
/// nodes have been set up and not yet decided on.
pub proof fn lemma_clear_flags_are_sound(rti: &RTICommon)
    requires
        forall|n: int|
            0 <= n < rti.scheduling_nodes.len() ==> (#[trigger] rti.scheduling_nodes[n]).flags
                == 0,
    ensures
        flags_sound(rti),
{
    assert(0i32 & 1i32 == 0i32) by (bit_vector);
    assert(0i32 & 2i32 == 0i32) by (bit_vector);
}

/// Sound flags stay sound where the connection graph stays and the flags
/// of each node are kept, or set by the build of its cache.
pub proof fn lemma_flags_stay_sound(before: &RTICommon, after: &RTICommon)
    requires
        before.wf(),
        flags_sound(before),
        after.scheduling_nodes.len() == before.scheduling_nodes.len(),
        after.graph() == before.graph(),
        forall|n: int|
            0 <= n < before.scheduling_nodes.len() ==> {
                let b = before.scheduling_nodes[n];
                let a = #[trigger] after.scheduling_nodes[n];
                ||| a.flags == b.flags
                ||| a.id == b.id && cache_updated(before.graph(), b, a)
            },
    ensures
        flags_sound(after),
{
    lemma_graph_wf(before);
    let g = before.graph();
    assert forall|n: int| 0 <= n < after.scheduling_nodes.len() implies {
        let flags = (#[trigger] after.scheduling_nodes[n]).flags;
        &&& zero_delay_cycle_flag(flags) ==> on_zero_delay_cycle(g, n)
        &&& cycle_flag(flags) ==> reaches(g, n, n)
    } by {
        let b = before.scheduling_nodes[n];
        let a = after.scheduling_nodes[n];
        assert(b.id == n);
        if a.flags != b.flags {
            let md = a.min_delays@;
            assert(b.num_min_delays == 0);
            assert(listed(md, n));
            let k = choose|k: int| 0 <= k < md.len() && (#[trigger] md[k]).id == n;
            let least = md[k].min_delay;
            lemma_cycle_flags_twice(b.flags, least, least);
            assert(least_delay(g, n, n, least));
            if least == Tag::zero() {
                let w = choose|w: Seq<(int, int)>|
                    #[trigger] is_walk(g, n, w) && 1 <= w.len() <= g.len() && walk_end(g, n, w)
                        == n && walk_delay(g, w) == least;
                assert(is_walk(g, n, w) && 1 <= w.len() <= u32::MAX && walk_end(g, n, w) == n
                    && walk_delay(g, w) == Tag::zero());
            }
        }
    }
}

/// The flags of a node tell its cycles. In a registry with valid caches,
/// with flags that follow the caches and are sound, the zero-delay bit of
/// a node with a built cache is set exactly if the node lies on a
/// zero-delay cycle of at most `u32::MAX` connections, and its cycle bit
/// exactly if it lies on a cycle.
pub proof fn lemma_flags_tell_the_cycles(rti: &RTICommon, n: int)
    requires
        rti.wf(),
        caches_valid(rti),
        flags_follow_caches(rti),
        flags_sound(rti),
        0 <= n < rti.scheduling_nodes.len(),
        rti.scheduling_nodes[n].num_min_delays != 0,
    ensures
        zero_delay_cycle_flag(rti.scheduling_nodes[n].flags) <==> on_zero_delay_cycle(
            rti.graph(),
            n,
        ),
        cycle_flag(rti.scheduling_nodes[n].flags) <==> reaches(rti.graph(), n, n),
{
    lemma_graph_wf(rti);
    let g = rti.graph();
    let node = rti.scheduling_nodes[n];
    let md = node.min_delays@;
    assert(is_min_delay_table(g, n, md));
    if on_zero_delay_cycle(g, n) {
        let w = choose|w: Seq<(int, int)>|
            #[trigger] is_walk(g, n, w) && 1 <= w.len() <= u32::MAX && walk_end(g, n, w) == n
                && walk_delay(g, w) == Tag::zero();
        assert(is_walk(g, n, w) && 1 <= w.len() && walk_end(g, n, w) == n && finite(
            walk_delay(g, w),
        ));
        assert(reaches(g, n, n));
    }
    if reaches(g, n, n) {
        assert(listed(md, n));
        let k = choose|k: int| 0 <= k < md.len() && (#[trigger] md[k]).id == n;
        let least = md[k].min_delay;
        assert(flags_of_cycle(node.flags, least));
        assert(least_delay(g, n, n, least));
        let witness = choose|w: Seq<(int, int)>|
            #[trigger] is_walk(g, n, w) && 1 <= w.len() <= g.len() && walk_end(g, n, w) == n
                && walk_delay(g, w) == least;
        lemma_walk_delay_shape(g, n, witness);
        if on_zero_delay_cycle(g, n) {
            let z = choose|z: Seq<(int, int)>|
                #[trigger] is_walk(g, n, z) && 1 <= z.len() <= u32::MAX && walk_end(g, n, z) == n
                    && walk_delay(g, z) == Tag::zero();
            assert(least.le(walk_delay(g, z)));
        }
    }
}

/// Two registries whose nodes agree, one by one, on their state and their
/// upstream connections have the same connection graph.
pub proof fn lemma_same_graph(before: &RTICommon, after: &RTICommon)
    requires
        after.scheduling_nodes.len() == before.scheduling_nodes.len(),
        forall|i: int|
            0 <= i < before.scheduling_nodes.len() ==> {
                let b = before.scheduling_nodes[i];
                let a = #[trigger] after.scheduling_nodes[i];
                &&& a.upstream@ == b.upstream@
                &&& a.upstream_delay@ == b.upstream_delay@
                &&& (a.state == SchedulingNodeState::NotConnected) == (b.state
                    == SchedulingNodeState::NotConnected)
            },
    ensures
        after.graph() == before.graph(),
{
    assert(after.graph() =~= before.graph()) by {
        assert forall|i: int| 0 <= i < before.scheduling_nodes.len() implies after.graph()[i]
            == before.graph()[i] by {
            assert(after.scheduling_nodes[i].vertex() == before.scheduling_nodes[i].vertex());
        }
    }
}

/// Valid caches stay valid where the connection graph stays and each cache
/// is kept, emptied, or built as the table of its node.
pub proof fn lemma_caches_stay_valid(before: &RTICommon, after: &RTICommon)
    requires
        before.wf(),
        caches_valid(before),
        after.scheduling_nodes.len() == before.scheduling_nodes.len(),
        after.graph() == before.graph(),
        forall|n: int|
            0 <= n < before.scheduling_nodes.len() ==> {
                let b = before.scheduling_nodes[n];
                let a = #[trigger] after.scheduling_nodes[n];
                ||| a.num_min_delays == 0
                ||| same_cache(a, b)
                ||| a.id == b.id && cache_updated(before.graph(), b, a)
            },
    ensures
        caches_valid(after),
{
    assert forall|n: int|
        0 <= n < after.scheduling_nodes.len() && (#[trigger] after.scheduling_nodes[n]).num_min_delays
            != 0 implies is_min_delay_table(
        after.graph(),
        n,
        after.scheduling_nodes[n].min_delays@,
    ) by {
        let b = before.scheduling_nodes[n];
        assert(b.id == n);
        assert(b.wf(before.scheduling_nodes.len() as int));
    }
}

/// Bringing the cache of a node up to date keeps valid caches valid.
pub proof fn lemma_update_keeps_caches_valid(before: &RTICommon, after: &RTICommon, idx: int)
    requires
        before.wf(),
        0 <= idx < before.scheduling_nodes.len(),
        caches_valid(before),
        registry_min_delays_updated(before, after, idx),
    ensures
        caches_valid(after),
{
    lemma_caches_stay_valid(before, after);
}

} // verus!
