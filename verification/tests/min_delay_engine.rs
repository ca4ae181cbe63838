use rti::rti_common::{
    MinimumDelay, RTICommon, SchedulingNode, SchedulingNodeState, IS_IN_CYCLE,
    IS_IN_ZERO_DELAY_CYCLE,
};
use rti::tag::Tag;

fn federation(n: u16) -> RTICommon {
    let mut rti = RTICommon::new();
    for id in 0..n {
        assert!(rti.initialize_node(id));
        rti.set_state(id, SchedulingNodeState::Granted);
    }
    rti
}

fn connect(rti: &mut RTICommon, from: u16, to: u16, delay: Option<i64>) {
    rti.register_upstream(to, from, delay);
    rti.register_downstream(from, to);
}

fn table(rti: &mut RTICommon, node: u16) -> Vec<(i32, Tag)> {
    SchedulingNode::update_min_delays_upstream(rti, node);
    let n = &mut rti.scheduling_nodes()[node as usize];
    assert_eq!(n.num_min_delays(), n.min_delays().len() as u64);
    n.min_delays().iter().map(|m| (m.id(), *m.min_delay())).collect()
}

#[test]
fn a_node_without_upstream_has_an_empty_table() {
    let mut rti = federation(2);
    connect(&mut rti, 0, 1, Some(5));
    assert_eq!(table(&mut rti, 0), vec![]);
    assert_eq!(rti.scheduling_nodes()[0].flags(), 0);
}

#[test]
fn a_chain_accumulates_the_delays() {
    let mut rti = federation(3);
    connect(&mut rti, 0, 1, Some(5));
    connect(&mut rti, 1, 2, Some(7));
    assert_eq!(table(&mut rti, 2), vec![(0, Tag::new(12, 0)), (1, Tag::new(7, 0))]);
    assert_eq!(table(&mut rti, 1), vec![(0, Tag::new(5, 0))]);
    assert_eq!(rti.scheduling_nodes()[2].flags(), 0);
}

#[test]
fn microstep_delays_count_microsteps() {
    let mut rti = federation(4);
    connect(&mut rti, 0, 1, Some(0));
    connect(&mut rti, 0, 2, Some(0));
    connect(&mut rti, 1, 3, Some(0));
    connect(&mut rti, 2, 3, Some(0));
    assert_eq!(
        table(&mut rti, 3),
        vec![(0, Tag::new(0, 2)), (1, Tag::new(0, 1)), (2, Tag::new(0, 1))]
    );
}

#[test]
fn a_positive_delay_resets_the_microsteps_before_it() {
    let mut rti = federation(3);
    connect(&mut rti, 0, 1, Some(0));
    connect(&mut rti, 1, 2, Some(3));
    // From node 2: first the connection of 3 ns, then the microstep.
    assert_eq!(table(&mut rti, 2), vec![(0, Tag::new(3, 1)), (1, Tag::new(3, 0))]);
}

#[test]
fn the_least_of_two_paths_is_kept() {
    let mut rti = federation(3);
    connect(&mut rti, 0, 2, Some(10));
    connect(&mut rti, 0, 1, Some(2));
    connect(&mut rti, 1, 2, Some(3));
    assert_eq!(table(&mut rti, 2), vec![(0, Tag::new(5, 0)), (1, Tag::new(3, 0))]);
}

#[test]
fn a_lowered_delay_is_carried_further_upstream() {
    // Node 3 reaches node 1 first over 10 ns and then, through node 2, over
    // 1 ns: the delay of node 0, upstream of node 1, has to follow.
    let mut rti = federation(4);
    connect(&mut rti, 0, 1, Some(1));
    connect(&mut rti, 1, 3, Some(10));
    connect(&mut rti, 2, 3, Some(0));
    connect(&mut rti, 1, 2, Some(1));
    assert_eq!(
        table(&mut rti, 3),
        vec![(0, Tag::new(2, 0)), (1, Tag::new(1, 0)), (2, Tag::new(0, 1))]
    );
}

#[test]
fn a_saturated_path_does_not_count() {
    let mut rti = federation(3);
    connect(&mut rti, 0, 1, Some(i64::MAX - 1));
    connect(&mut rti, 1, 2, Some(5));
    assert_eq!(table(&mut rti, 2), vec![(1, Tag::new(5, 0))]);
    assert_eq!(table(&mut rti, 1), vec![(0, Tag::new(i64::MAX - 1, 0))]);
}

#[test]
fn a_zero_delay_cycle_sets_both_flags_and_lists_the_node_itself() {
    let mut rti = federation(2);
    connect(&mut rti, 0, 1, None);
    connect(&mut rti, 1, 0, None);
    assert_eq!(table(&mut rti, 0), vec![(0, Tag::zero_tag()), (1, Tag::zero_tag())]);
    assert_eq!(table(&mut rti, 1), vec![(0, Tag::zero_tag()), (1, Tag::zero_tag())]);
    assert_eq!(rti.scheduling_nodes()[0].flags(), IS_IN_CYCLE | IS_IN_ZERO_DELAY_CYCLE);
    assert_eq!(rti.scheduling_nodes()[1].flags(), IS_IN_CYCLE | IS_IN_ZERO_DELAY_CYCLE);
    assert!(SchedulingNode::is_in_zero_delay_cycle(&mut rti, 0));
    assert!(SchedulingNode::is_in_zero_delay_cycle(&mut rti, 1));
}

#[test]
fn a_cycle_with_a_delay_sets_the_cycle_flag_only() {
    let mut rti = federation(2);
    connect(&mut rti, 0, 1, None);
    connect(&mut rti, 1, 0, Some(0));
    assert_eq!(table(&mut rti, 0), vec![(0, Tag::new(0, 1)), (1, Tag::new(0, 1))]);
    assert_eq!(table(&mut rti, 1), vec![(0, Tag::zero_tag()), (1, Tag::new(0, 1))]);
    assert_eq!(rti.scheduling_nodes()[0].flags(), IS_IN_CYCLE);
    assert_eq!(rti.scheduling_nodes()[1].flags(), IS_IN_CYCLE);
    assert!(!SchedulingNode::is_in_zero_delay_cycle(&mut rti, 0));
}

#[test]
fn a_cycle_found_with_a_delay_clears_a_zero_delay_flag_set_before() {
    let mut rti = federation(1);
    connect(&mut rti, 0, 0, Some(4));
    rti.scheduling_nodes()[0].set_flags(IS_IN_ZERO_DELAY_CYCLE);
    assert_eq!(table(&mut rti, 0), vec![(0, Tag::new(4, 0))]);
    assert_eq!(rti.scheduling_nodes()[0].flags(), IS_IN_CYCLE);
}

#[test]
fn a_node_off_every_cycle_keeps_its_flags() {
    let mut rti = federation(3);
    connect(&mut rti, 0, 1, None);
    connect(&mut rti, 1, 0, None);
    connect(&mut rti, 1, 2, None);
    assert_eq!(table(&mut rti, 2), vec![(0, Tag::zero_tag()), (1, Tag::zero_tag())]);
    assert_eq!(rti.scheduling_nodes()[2].flags(), 0);
    assert!(!SchedulingNode::is_in_zero_delay_cycle(&mut rti, 2));
}

#[test]
fn the_nodes_upstream_of_a_disconnected_node_are_not_reached() {
    let mut rti = federation(3);
    connect(&mut rti, 0, 1, Some(5));
    connect(&mut rti, 1, 2, Some(7));
    rti.set_state(1, SchedulingNodeState::NotConnected);
    assert_eq!(table(&mut rti, 2), vec![(1, Tag::new(7, 0))]);
}

#[test]
fn a_disconnected_node_has_an_empty_table() {
    let mut rti = federation(2);
    connect(&mut rti, 0, 1, Some(5));
    rti.set_state(1, SchedulingNodeState::NotConnected);
    assert_eq!(table(&mut rti, 1), vec![]);
}

#[test]
fn a_built_cache_is_not_rebuilt() {
    let mut rti = federation(3);
    connect(&mut rti, 0, 2, Some(5));
    assert_eq!(table(&mut rti, 2), vec![(0, Tag::new(5, 0))]);
    // An entry written into the cache is taken for valid as long as the
    // cache is not emptied.
    rti.scheduling_nodes()[2].min_delays()[0] = MinimumDelay::new(0, Tag::new(99, 0));
    assert_eq!(table(&mut rti, 2), vec![(0, Tag::new(99, 0))]);
    rti.invalidate_min_delays();
    assert_eq!(table(&mut rti, 2), vec![(0, Tag::new(5, 0))]);
}

#[test]
fn a_connection_added_through_the_node_empties_its_cache() {
    let mut rti = federation(3);
    connect(&mut rti, 0, 1, Some(5));
    assert_eq!(table(&mut rti, 1), vec![(0, Tag::new(5, 0))]);
    assert_eq!(rti.scheduling_nodes()[1].num_min_delays(), 1);
    let node = &mut rti.scheduling_nodes()[1];
    node.set_upstream_id_at(2, 1);
    assert_eq!(node.num_min_delays(), 0);
    assert!(node.min_delays().is_empty());
    assert_eq!(node.upstream(), &vec![0, 2]);
    node.set_upstream_delay_at(Some(1), 1);
    node.set_num_upstream(2);
    assert!(rti.is_well_formed());
    assert_eq!(table(&mut rti, 1), vec![(0, Tag::new(5, 0)), (2, Tag::new(1, 0))]);
    assert_eq!(
        SchedulingNode::earliest_future_incoming_message_tag(&mut rti, 1, 10),
        Tag::new(11, 0)
    );
}

#[test]
fn every_setter_of_a_connection_empties_the_cache_of_its_node() {
    let build = || {
        let mut rti = federation(2);
        connect(&mut rti, 0, 1, Some(5));
        SchedulingNode::update_min_delays_upstream(&mut rti, 1);
        assert_eq!(rti.scheduling_nodes()[1].num_min_delays(), 1);
        rti
    };
    let mut rti = build();
    rti.scheduling_nodes()[1].set_upstream_delay_at(None, 0);
    assert_eq!(rti.scheduling_nodes()[1].num_min_delays(), 0);
    assert!(rti.scheduling_nodes()[1].min_delays().is_empty());
    let mut rti = build();
    rti.scheduling_nodes()[1].set_num_upstream(1);
    assert_eq!(rti.scheduling_nodes()[1].num_min_delays(), 0);
    let mut rti = build();
    rti.scheduling_nodes()[1].set_downstream_id_at(0, 0);
    assert_eq!(rti.scheduling_nodes()[1].num_min_delays(), 0);
    let mut rti = build();
    rti.scheduling_nodes()[1].set_num_downstream(0);
    assert_eq!(rti.scheduling_nodes()[1].num_min_delays(), 0);
    let mut rti = build();
    rti.scheduling_nodes()[1].drop_min_delays();
    assert_eq!(rti.scheduling_nodes()[1].num_min_delays(), 0);
    assert!(rti.scheduling_nodes()[1].min_delays().is_empty());
    assert_eq!(rti.scheduling_nodes()[1].upstream(), &vec![0]);
}

#[test]
fn setting_the_state_of_a_node_empties_its_cache_when_it_connects_or_leaves() {
    let mut rti = federation(2);
    connect(&mut rti, 0, 1, Some(5));
    SchedulingNode::update_min_delays_upstream(&mut rti, 1);
    let node = &mut rti.scheduling_nodes()[1];
    node.set_state(SchedulingNodeState::Pending);
    assert_eq!(node.num_min_delays(), 1);
    node.set_state(SchedulingNodeState::NotConnected);
    assert_eq!(node.state(), SchedulingNodeState::NotConnected);
    assert_eq!(node.num_min_delays(), 0);
    assert!(node.min_delays().is_empty());
    assert_eq!(table(&mut rti, 1), vec![]);
    rti.scheduling_nodes()[1].set_state(SchedulingNodeState::Pending);
    assert_eq!(table(&mut rti, 1), vec![(0, Tag::new(5, 0))]);
}

#[test]
fn a_recorded_length_of_zero_marks_the_cache_as_not_built() {
    let mut rti = federation(3);
    connect(&mut rti, 0, 2, Some(5));
    SchedulingNode::update_min_delays_upstream(&mut rti, 2);
    rti.scheduling_nodes()[2].min_delays()[0] = MinimumDelay::new(0, Tag::new(99, 0));
    rti.scheduling_nodes()[2].set_num_min_delays(0);
    assert!(rti.scheduling_nodes()[2].min_delays().is_empty());
    assert!(rti.is_well_formed());
    rti.scheduling_nodes()[0].set_next_event(Tag::new(10, 0));
    // The next computation builds the cache anew.
    assert_eq!(
        SchedulingNode::earliest_future_incoming_message_tag(&mut rti, 2, 0),
        Tag::new(15, 0)
    );
    assert_eq!(rti.scheduling_nodes()[2].num_min_delays(), 1);
    assert_eq!(rti.scheduling_nodes()[2].flags(), 0);
}

#[test]
fn a_recorded_length_other_than_zero_leaves_the_list_alone() {
    let mut node = SchedulingNode::new();
    node.min_delays().push(MinimumDelay::new(3, Tag::new(5, 0)));
    node.set_num_min_delays(1);
    assert_eq!(node.num_min_delays(), 1);
    assert_eq!(node.min_delays().len(), 1);
    node.set_num_min_delays(4);
    assert_eq!(node.num_min_delays(), 4);
    assert_eq!(node.min_delays().len(), 1);
}

#[test]
fn giving_a_node_its_id_leaves_its_cache_alone() {
    let mut rti = federation(2);
    connect(&mut rti, 0, 1, Some(5));
    rti.scheduling_nodes()[1].set_flags(IS_IN_CYCLE);
    assert_eq!(table(&mut rti, 1), vec![(0, Tag::new(5, 0))]);
    let node = &mut rti.scheduling_nodes()[1];
    node.initialize_scheduling_node(1);
    assert_eq!(node.id(), 1);
    assert_eq!(node.num_min_delays(), 1);
    assert_eq!(node.min_delays().len(), 1);
    assert_eq!(node.flags(), IS_IN_CYCLE);
    assert_eq!(node.upstream(), &vec![0]);
    assert_eq!(node.state(), SchedulingNodeState::Granted);
}

#[test]
fn the_flags_of_a_node_on_a_cycle_follow_its_table() {
    let mut rti = federation(3);
    connect(&mut rti, 0, 1, None);
    connect(&mut rti, 1, 0, None);
    connect(&mut rti, 1, 2, Some(0));
    connect(&mut rti, 2, 1, None);
    for id in 0..3u16 {
        rti.scheduling_nodes()[id as usize].set_flags(IS_IN_ZERO_DELAY_CYCLE);
        let own: Vec<Tag> = table(&mut rti, id)
            .into_iter()
            .filter(|entry| entry.0 == id as i32)
            .map(|entry| entry.1)
            .collect();
        assert_eq!(own.len(), 1);
        let flags = rti.scheduling_nodes()[id as usize].flags();
        assert_eq!(flags & IS_IN_CYCLE, IS_IN_CYCLE);
        assert_eq!(flags & IS_IN_ZERO_DELAY_CYCLE != 0, own[0] == Tag::zero_tag());
    }
    assert_eq!(rti.scheduling_nodes()[0].flags(), IS_IN_CYCLE | IS_IN_ZERO_DELAY_CYCLE);
    assert_eq!(rti.scheduling_nodes()[2].flags(), IS_IN_CYCLE);
}

#[test]
fn a_node_that_leaves_a_cycle_leaves_the_flags_behind() {
    let mut rti = federation(2);
    connect(&mut rti, 0, 1, None);
    connect(&mut rti, 1, 0, None);
    assert!(SchedulingNode::is_in_zero_delay_cycle(&mut rti, 0));
    rti.set_state(1, SchedulingNodeState::NotConnected);
    // The table is built anew and finds no cycle: the flags stay.
    assert_eq!(table(&mut rti, 0), vec![(1, Tag::zero_tag())]);
    assert_eq!(rti.scheduling_nodes()[0].flags(), IS_IN_CYCLE | IS_IN_ZERO_DELAY_CYCLE);
}
