use rti::rti_common::{RTICommon, SchedulingNode, SchedulingNodeState, TagAdvanceGrant};
use rti::tag::Tag;

fn federation(n: u16) -> RTICommon {
    let mut rti = RTICommon::new();
    for id in 0..n {
        assert!(rti.initialize_node(id));
        rti.set_state(id, SchedulingNodeState::Granted);
    }
    rti
}

fn connect(rti: &mut RTICommon, from: u16, to: u16, delay: Option<i64>) {
    rti.register_upstream(to, from, delay);
    rti.register_downstream(from, to);
}

fn tag(time: i64, microstep: u32) -> TagAdvanceGrant {
    TagAdvanceGrant::new(Tag::new(time, microstep), false)
}

fn ptag(time: i64, microstep: u32) -> TagAdvanceGrant {
    TagAdvanceGrant::new(Tag::new(time, microstep), true)
}

fn nothing() -> TagAdvanceGrant {
    TagAdvanceGrant::new(Tag::never_tag(), false)
}

#[test]
fn the_earliest_incoming_tag_of_a_node_without_upstream_is_forever() {
    let mut rti = federation(2);
    connect(&mut rti, 0, 1, Some(5));
    assert_eq!(
        SchedulingNode::earliest_future_incoming_message_tag(&mut rti, 0, 0),
        Tag::forever_tag()
    );
}

#[test]
fn the_earliest_incoming_tag_adds_the_minimum_delay_to_the_next_event() {
    let mut rti = federation(3);
    connect(&mut rti, 0, 1, Some(5));
    connect(&mut rti, 1, 2, Some(7));
    rti.scheduling_nodes()[0].set_next_event(Tag::new(10, 0));
    rti.scheduling_nodes()[1].set_next_event(Tag::new(20, 3));
    // min((10, 0) + (12, 0), (20, 3) + (7, 0))
    assert_eq!(
        SchedulingNode::earliest_future_incoming_message_tag(&mut rti, 2, 0),
        Tag::new(22, 0)
    );
    rti.scheduling_nodes()[0].set_next_event(Tag::new(16, 0));
    assert_eq!(
        SchedulingNode::earliest_future_incoming_message_tag(&mut rti, 2, 0),
        Tag::new(27, 3)
    );
}

#[test]
fn a_silent_upstream_node_is_taken_to_send_at_the_start_time() {
    let mut rti = federation(2);
    connect(&mut rti, 0, 1, Some(5));
    assert_eq!(
        SchedulingNode::earliest_future_incoming_message_tag(&mut rti, 1, 1_000),
        Tag::new(1_005, 0)
    );
    assert_eq!(rti.scheduling_nodes()[0].next_event(), Tag::new(1_000, 0));
    assert_eq!(rti.scheduling_nodes()[1].next_event(), Tag::never_tag());
}

#[test]
fn the_earliest_incoming_tag_builds_the_cache_on_first_use() {
    let mut rti = federation(2);
    connect(&mut rti, 0, 1, Some(5));
    rti.scheduling_nodes()[0].set_next_event(Tag::new(10, 0));
    assert_eq!(rti.scheduling_nodes()[1].num_min_delays(), 0);
    assert_eq!(
        SchedulingNode::earliest_future_incoming_message_tag(&mut rti, 1, 0),
        Tag::new(15, 0)
    );
    assert_eq!(rti.scheduling_nodes()[1].num_min_delays(), 1);
}

#[test]
fn upstream_completion_beyond_the_next_event_grants_the_bound() {
    let mut rti = federation(2);
    connect(&mut rti, 0, 1, Some(5));
    rti.scheduling_nodes()[0].set_completed(Tag::new(10, 0));
    rti.scheduling_nodes()[1].set_next_event(Tag::new(12, 0));
    assert_eq!(SchedulingNode::tag_advance_grant_if_safe(&mut rti, 1, 0), tag(14, u32::MAX));
    // The fast path builds no cache.
    assert_eq!(rti.scheduling_nodes()[1].num_min_delays(), 0);
}

#[test]
fn the_least_upstream_completion_bounds_the_fast_path() {
    let mut rti = federation(3);
    connect(&mut rti, 0, 2, Some(0));
    connect(&mut rti, 1, 2, Some(0));
    rti.scheduling_nodes()[0].set_completed(Tag::new(3, 1));
    rti.scheduling_nodes()[1].set_completed(Tag::new(3, 0));
    rti.scheduling_nodes()[2].set_next_event(Tag::new(1, 0));
    assert_eq!(SchedulingNode::tag_advance_grant_if_safe(&mut rti, 2, 0), tag(3, 1));
}

#[test]
fn a_disconnected_upstream_node_puts_up_no_bound() {
    let mut rti = federation(3);
    connect(&mut rti, 0, 2, Some(0));
    connect(&mut rti, 1, 2, Some(0));
    rti.scheduling_nodes()[0].set_completed(Tag::new(3, 1));
    rti.scheduling_nodes()[2].set_next_event(Tag::new(1, 0));
    rti.set_state(1, SchedulingNodeState::NotConnected);
    assert_eq!(SchedulingNode::tag_advance_grant_if_safe(&mut rti, 2, 0), tag(3, 2));
    rti.set_state(0, SchedulingNodeState::NotConnected);
    assert_eq!(
        SchedulingNode::tag_advance_grant_if_safe(&mut rti, 2, 0),
        TagAdvanceGrant::new(Tag::forever_tag(), false)
    );
}

#[test]
fn an_incoming_tag_above_the_next_event_grants_the_next_event() {
    let mut rti = federation(2);
    connect(&mut rti, 0, 1, Some(5));
    rti.scheduling_nodes()[0].set_next_event(Tag::new(10, 0));
    rti.scheduling_nodes()[1].set_next_event(Tag::new(10, 0));
    assert_eq!(SchedulingNode::tag_advance_grant_if_safe(&mut rti, 1, 0), tag(10, 0));
}

#[test]
fn an_incoming_tag_below_the_next_event_grants_nothing() {
    let mut rti = federation(2);
    connect(&mut rti, 0, 1, Some(5));
    rti.scheduling_nodes()[0].set_next_event(Tag::new(10, 0));
    rti.scheduling_nodes()[1].set_next_event(Tag::new(16, 0));
    assert_eq!(SchedulingNode::tag_advance_grant_if_safe(&mut rti, 1, 0), nothing());
}

#[test]
fn a_grant_that_is_not_above_the_last_granted_tag_is_redundant() {
    let mut rti = federation(2);
    connect(&mut rti, 0, 1, Some(5));
    rti.scheduling_nodes()[0].set_next_event(Tag::new(10, 0));
    rti.scheduling_nodes()[1].set_next_event(Tag::new(10, 0));
    rti.scheduling_nodes()[1].set_last_granted(Tag::new(15, 0));
    assert_eq!(SchedulingNode::tag_advance_grant_if_safe(&mut rti, 1, 0), nothing());
    rti.scheduling_nodes()[1].set_last_granted(Tag::new(14, 0));
    assert_eq!(SchedulingNode::tag_advance_grant_if_safe(&mut rti, 1, 0), tag(10, 0));
}

#[test]
fn a_grant_overrides_a_provisional_grant_at_the_incoming_tag() {
    let mut rti = federation(2);
    connect(&mut rti, 0, 1, Some(5));
    rti.scheduling_nodes()[0].set_next_event(Tag::new(10, 0));
    rti.scheduling_nodes()[1].set_next_event(Tag::new(10, 0));
    rti.scheduling_nodes()[1].set_last_provisionally_granted(Tag::new(15, 0));
    assert_eq!(SchedulingNode::tag_advance_grant_if_safe(&mut rti, 1, 0), tag(10, 0));
    rti.scheduling_nodes()[1].set_last_provisionally_granted(Tag::new(15, 1));
    assert_eq!(SchedulingNode::tag_advance_grant_if_safe(&mut rti, 1, 0), nothing());
}

#[test]
fn one_upstream_without_delay_and_an_equal_next_event_gets_no_tag() {
    let mut rti = federation(2);
    connect(&mut rti, 0, 1, None);
    rti.scheduling_nodes()[0].set_next_event(Tag::new(10, 0));
    rti.scheduling_nodes()[1].set_next_event(Tag::new(10, 0));
    let grant = SchedulingNode::tag_advance_grant_if_safe(&mut rti, 1, 0);
    // Not a TAG: a message with the tag of the next event may still come.
    // Not a PTAG either: the node lies on no zero-delay cycle.
    assert_eq!(grant, nothing());
    assert!(!SchedulingNode::is_in_zero_delay_cycle(&mut rti, 1));
}

#[test]
fn on_a_zero_delay_cycle_an_equal_incoming_tag_grants_provisionally() {
    let mut rti = federation(2);
    connect(&mut rti, 0, 1, None);
    connect(&mut rti, 1, 0, None);
    rti.scheduling_nodes()[0].set_next_event(Tag::new(100, 0));
    rti.scheduling_nodes()[1].set_next_event(Tag::new(100, 0));
    assert_eq!(SchedulingNode::tag_advance_grant_if_safe(&mut rti, 0, 0), ptag(100, 0));
    assert_eq!(SchedulingNode::tag_advance_grant_if_safe(&mut rti, 1, 0), ptag(100, 0));
    assert!(SchedulingNode::is_in_zero_delay_cycle(&mut rti, 0));
    assert!(SchedulingNode::is_in_zero_delay_cycle(&mut rti, 1));
}

#[test]
fn a_provisional_grant_does_not_override_itself() {
    let mut rti = federation(2);
    connect(&mut rti, 0, 1, None);
    connect(&mut rti, 1, 0, None);
    rti.scheduling_nodes()[0].set_next_event(Tag::new(100, 0));
    rti.scheduling_nodes()[1].set_next_event(Tag::new(100, 0));
    rti.scheduling_nodes()[0].set_last_provisionally_granted(Tag::new(100, 0));
    assert_eq!(SchedulingNode::tag_advance_grant_if_safe(&mut rti, 0, 0), nothing());
}

#[test]
fn a_node_that_has_reported_nothing_is_decided_a_grant_of_never() {
    let mut rti = federation(2);
    connect(&mut rti, 0, 1, Some(5));
    rti.scheduling_nodes()[0].set_next_event(Tag::new(10, 0));
    assert_eq!(SchedulingNode::tag_advance_grant_if_safe(&mut rti, 1, 0), nothing());
}

fn transitive(rti: &RTICommon, node: usize, candidate: Tag, start_time: i64) -> (Tag, Vec<bool>) {
    let mut visited = vec![false; rti.scheduling_nodes.len()];
    let result = SchedulingNode::transitive_next_event(
        rti,
        &rti.scheduling_nodes[node],
        candidate,
        &mut visited,
        start_time,
    );
    (result, visited)
}

#[test]
fn the_transitive_next_event_of_a_node_alone_is_its_own_bound() {
    let mut rti = federation(1);
    rti.scheduling_nodes()[0].set_next_event(Tag::new(10, 0));
    assert_eq!(transitive(&rti, 0, Tag::new(12, 0), 0), (Tag::new(10, 0), vec![true]));
    assert_eq!(transitive(&rti, 0, Tag::new(7, 3), 0), (Tag::new(7, 3), vec![true]));
}

#[test]
fn the_transitive_next_event_is_not_before_the_start_time() {
    let mut rti = federation(1);
    rti.scheduling_nodes()[0].set_next_event(Tag::new(10, 5));
    assert_eq!(transitive(&rti, 0, Tag::forever_tag(), 20).0, Tag::new(20, 0));
    assert_eq!(transitive(&rti, 0, Tag::forever_tag(), 10).0, Tag::new(10, 5));
}

#[test]
fn the_transitive_next_event_is_not_below_the_completed_tag() {
    let mut rti = federation(1);
    rti.scheduling_nodes()[0].set_next_event(Tag::new(10, 0));
    rti.scheduling_nodes()[0].set_completed(Tag::new(11, 2));
    assert_eq!(transitive(&rti, 0, Tag::forever_tag(), 0).0, Tag::new(11, 2));
}

#[test]
fn the_transitive_next_event_counts_delayed_upstream_events() {
    let mut rti = federation(3);
    connect(&mut rti, 0, 1, Some(2));
    connect(&mut rti, 1, 2, Some(3));
    rti.scheduling_nodes()[0].set_next_event(Tag::new(1, 0));
    rti.scheduling_nodes()[1].set_next_event(Tag::new(5, 0));
    rti.scheduling_nodes()[2].set_next_event(Tag::new(20, 0));
    // Node 0 may send at (1, 0): node 1 has it at (3, 0), node 2 at (6, 0).
    assert_eq!(
        transitive(&rti, 2, Tag::forever_tag(), 0),
        (Tag::new(6, 0), vec![true, true, true])
    );
    assert_eq!(
        transitive(&rti, 1, Tag::forever_tag(), 0),
        (Tag::new(3, 0), vec![true, true, false])
    );
    // A candidate below every upstream event is passed up and comes back
    // delayed: it stays the result.
    assert_eq!(transitive(&rti, 2, Tag::new(0, 7), 0).0, Tag::new(0, 7));
}

#[test]
fn the_transitive_next_event_passes_the_candidate_through_a_node_out_of_the_search() {
    let mut rti = federation(2);
    connect(&mut rti, 0, 1, Some(2));
    rti.scheduling_nodes()[0].set_next_event(Tag::new(1, 0));
    rti.scheduling_nodes()[1].set_next_event(Tag::new(20, 0));
    rti.set_state(0, SchedulingNodeState::NotConnected);
    // Node 0 hands the bound (20, 0) back, and the connection delays it.
    assert_eq!(transitive(&rti, 1, Tag::forever_tag(), 0), (Tag::new(20, 0), vec![false, true]));
    rti.set_state(1, SchedulingNodeState::NotConnected);
    assert_eq!(transitive(&rti, 1, Tag::new(4, 4), 0), (Tag::new(4, 4), vec![false, false]));
    rti.set_state(1, SchedulingNodeState::Granted);
    let mut visited = vec![false, true];
    let result = SchedulingNode::transitive_next_event(
        &rti,
        &rti.scheduling_nodes[1],
        Tag::new(4, 4),
        &mut visited,
        0,
    );
    assert_eq!((result, visited), (Tag::new(4, 4), vec![false, true]));
}

#[test]
fn the_transitive_next_event_ends_on_a_cycle() {
    let mut rti = federation(2);
    connect(&mut rti, 0, 1, Some(0));
    connect(&mut rti, 1, 0, Some(0));
    rti.scheduling_nodes()[0].set_next_event(Tag::new(3, 0));
    rti.scheduling_nodes()[1].set_next_event(Tag::new(8, 0));
    assert_eq!(
        transitive(&rti, 1, Tag::forever_tag(), 0),
        (Tag::new(3, 1), vec![true, true])
    );
    assert_eq!(transitive(&rti, 0, Tag::forever_tag(), 0).0, Tag::new(3, 0));
}
