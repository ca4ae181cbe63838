use rti::rti_common::{
    MinimumDelay, RTICommon, SchedulingNode, SchedulingNodeState, TagAdvanceGrant,
    IS_IN_CYCLE, IS_IN_ZERO_DELAY_CYCLE,
};
use rti::tag::Tag;

fn federation(n: u16) -> RTICommon {
    let mut rti = RTICommon::new();
    for id in 0..n {
        assert!(rti.initialize_node(id));
        rti.set_state(id, SchedulingNodeState::Granted);
    }
    rti
}

fn connect(rti: &mut RTICommon, from: u16, to: u16, delay: Option<i64>) {
    rti.register_upstream(to, from, delay);
    rti.register_downstream(from, to);
}

#[test]
fn a_new_node_is_not_connected_and_has_never_tags() {
    let mut node = SchedulingNode::new();
    assert_eq!(node.id(), 0);
    assert_eq!(node.completed(), Tag::never_tag());
    assert_eq!(node.last_granted(), Tag::never_tag());
    assert_eq!(node.last_provisionally_granted(), Tag::never_tag());
    assert_eq!(node.next_event(), Tag::never_tag());
    assert_eq!(node.state(), SchedulingNodeState::NotConnected);
    assert!(node.upstream().is_empty());
    assert!(node.upstream_delay().is_empty());
    assert_eq!(node.num_upstream(), 0);
    assert!(node.downstream().is_empty());
    assert_eq!(node.num_downstream(), 0);
    assert!(node.min_delays().is_empty());
    assert_eq!(node.num_min_delays(), 0);
    assert_eq!(node.flags(), 0);
}

#[test]
fn node_setters_change_the_field_they_name() {
    let mut node = SchedulingNode::new();
    node.initialize_scheduling_node(7);
    node.set_completed(Tag::new(1, 0));
    node.set_last_granted(Tag::new(2, 0));
    node.set_last_provisionally_granted(Tag::new(3, 0));
    node.set_next_event(Tag::new(4, 0));
    node.set_state(SchedulingNodeState::Pending);
    node.set_num_upstream(2);
    node.set_num_downstream(1);
    node.set_num_min_delays(5);
    node.set_flags(IS_IN_CYCLE | IS_IN_ZERO_DELAY_CYCLE);
    assert_eq!(node.id(), 7);
    assert_eq!(node.completed(), Tag::new(1, 0));
    assert_eq!(node.last_granted(), Tag::new(2, 0));
    assert_eq!(node.last_provisionally_granted(), Tag::new(3, 0));
    assert_eq!(node.next_event(), Tag::new(4, 0));
    assert_eq!(node.state(), SchedulingNodeState::Pending);
    assert_eq!(node.num_upstream(), 2);
    assert_eq!(node.num_downstream(), 1);
    assert_eq!(node.num_min_delays(), 5);
    assert_eq!(node.flags(), 3);
}

#[test]
fn list_setters_insert_at_the_given_position() {
    let mut node = SchedulingNode::new();
    node.set_upstream_id_at(4, 0);
    node.set_upstream_id_at(6, 1);
    node.set_upstream_id_at(5, 1);
    assert_eq!(node.upstream(), &vec![4, 5, 6]);
    node.set_upstream_delay_at(Some(10), 0);
    node.set_upstream_delay_at(None, 0);
    assert_eq!(node.upstream_delay(), &vec![None, Some(10)]);
    node.set_downstream_id_at(9, 0);
    node.set_downstream_id_at(8, 0);
    assert_eq!(node.downstream(), &vec![8, 9]);
}

#[test]
fn min_delays_can_be_filled_through_the_mutable_handle() {
    let mut node = SchedulingNode::new();
    node.min_delays().push(MinimumDelay::new(3, Tag::new(5, 0)));
    assert_eq!(node.min_delays().len(), 1);
    assert_eq!(node.min_delays()[0].id(), 3);
    assert_eq!(*node.min_delays()[0].min_delay(), Tag::new(5, 0));
}

#[test]
fn a_grant_record_holds_a_tag_and_its_kind() {
    let mut grant = TagAdvanceGrant::new(Tag::never_tag(), false);
    assert_eq!(grant.tag(), Tag::never_tag());
    assert!(!grant.is_provisional());
    grant.set_tag(Tag::new(3, 1));
    grant.set_provisional(true);
    assert_eq!(grant.tag(), Tag::new(3, 1));
    assert!(grant.is_provisional());
}

#[test]
fn a_new_registry_is_empty_and_well_formed() {
    let mut rti = RTICommon::new();
    assert_eq!(rti.number_of_scheduling_nodes(), 0);
    assert_eq!(rti.max_stop_tag(), Tag::never_tag());
    assert_eq!(rti.num_scheduling_nodes_handling_stop(), 0);
    assert!(rti.scheduling_nodes().is_empty());
    assert!(rti.is_well_formed());
}

#[test]
fn registry_setters_change_the_field_they_name() {
    let mut rti = RTICommon::new();
    rti.set_max_stop_tag(Tag::new(100, 2));
    rti.set_num_scheduling_nodes_handling_stop(3);
    rti.set_number_of_scheduling_nodes(4);
    assert_eq!(rti.max_stop_tag(), Tag::new(100, 2));
    assert_eq!(rti.num_scheduling_nodes_handling_stop(), 3);
    assert_eq!(rti.number_of_scheduling_nodes(), 4);
    assert!(!rti.is_well_formed());
}

#[test]
fn initialize_node_adds_nodes_with_dense_ids_only() {
    let mut rti = RTICommon::new();
    assert!(!rti.initialize_node(1));
    assert!(rti.initialize_node(0));
    assert!(!rti.initialize_node(0));
    assert!(rti.initialize_node(1));
    assert_eq!(rti.number_of_scheduling_nodes(), 2);
    assert_eq!(rti.scheduling_nodes()[1].id(), 1);
    assert_eq!(rti.scheduling_nodes()[1].state(), SchedulingNodeState::NotConnected);
    assert!(rti.is_well_formed());
}

#[test]
fn registering_connections_records_both_ends() {
    let mut rti = federation(3);
    connect(&mut rti, 0, 2, Some(5));
    connect(&mut rti, 1, 2, None);
    assert_eq!(rti.scheduling_nodes()[2].upstream(), &vec![0, 1]);
    assert_eq!(rti.scheduling_nodes()[2].upstream_delay(), &vec![Some(5), None]);
    assert_eq!(rti.scheduling_nodes()[2].num_upstream(), 2);
    assert_eq!(rti.scheduling_nodes()[0].downstream(), &vec![2]);
    assert_eq!(rti.scheduling_nodes()[0].num_downstream(), 1);
    assert_eq!(rti.scheduling_nodes()[1].downstream(), &vec![2]);
    assert!(rti.is_well_formed());
}

#[test]
fn a_dangling_connection_is_not_well_formed() {
    let mut rti = federation(2);
    rti.scheduling_nodes()[1].set_upstream_id_at(5, 0);
    rti.scheduling_nodes()[1].set_upstream_delay_at(None, 0);
    rti.scheduling_nodes()[1].set_num_upstream(1);
    assert!(!rti.is_well_formed());
}

#[test]
fn a_count_that_differs_from_its_list_is_not_well_formed() {
    let mut rti = federation(2);
    rti.scheduling_nodes()[1].set_num_downstream(1);
    assert!(!rti.is_well_formed());
    rti.scheduling_nodes()[1].set_num_downstream(0);
    assert!(rti.is_well_formed());
    rti.scheduling_nodes()[0].initialize_scheduling_node(1);
    assert!(!rti.is_well_formed());
}

#[test]
fn a_new_connection_empties_the_caches() {
    let mut rti = federation(4);
    connect(&mut rti, 0, 3, Some(5));
    SchedulingNode::update_min_delays_upstream(&mut rti, 3);
    assert_eq!(rti.scheduling_nodes()[3].num_min_delays(), 1);
    connect(&mut rti, 1, 3, Some(2));
    assert_eq!(rti.scheduling_nodes()[3].num_min_delays(), 0);
    assert!(rti.scheduling_nodes()[3].min_delays().is_empty());
    SchedulingNode::update_min_delays_upstream(&mut rti, 3);
    assert_eq!(rti.scheduling_nodes()[3].num_min_delays(), 2);
}

#[test]
fn connecting_or_disconnecting_a_node_empties_the_caches() {
    let mut rti = federation(2);
    connect(&mut rti, 0, 1, Some(5));
    SchedulingNode::update_min_delays_upstream(&mut rti, 1);
    assert_eq!(rti.scheduling_nodes()[1].num_min_delays(), 1);
    rti.set_state(0, SchedulingNodeState::Pending);
    assert_eq!(rti.scheduling_nodes()[1].num_min_delays(), 1);
    rti.set_state(0, SchedulingNodeState::NotConnected);
    assert_eq!(rti.scheduling_nodes()[0].state(), SchedulingNodeState::NotConnected);
    assert_eq!(rti.scheduling_nodes()[1].num_min_delays(), 0);
    assert!(rti.scheduling_nodes()[1].min_delays().is_empty());
}

#[test]
fn invalidation_keeps_everything_but_the_caches() {
    let mut rti = federation(2);
    connect(&mut rti, 0, 1, None);
    connect(&mut rti, 1, 0, None);
    SchedulingNode::update_min_delays_upstream(&mut rti, 1);
    rti.scheduling_nodes()[1].set_last_granted(Tag::new(4, 0));
    rti.invalidate_min_delays();
    assert_eq!(rti.scheduling_nodes()[1].num_min_delays(), 0);
    assert_eq!(rti.scheduling_nodes()[1].flags(), IS_IN_CYCLE | IS_IN_ZERO_DELAY_CYCLE);
    assert_eq!(rti.scheduling_nodes()[1].last_granted(), Tag::new(4, 0));
    assert_eq!(rti.scheduling_nodes()[1].upstream(), &vec![0]);
    assert!(rti.is_well_formed());
}

#[test]
fn adding_a_node_empties_the_caches() {
    let mut rti = federation(2);
    connect(&mut rti, 0, 1, Some(5));
    SchedulingNode::update_min_delays_upstream(&mut rti, 1);
    assert_eq!(rti.scheduling_nodes()[1].num_min_delays(), 1);
    assert!(!rti.initialize_node(1));
    assert_eq!(rti.scheduling_nodes()[1].num_min_delays(), 1);
    assert!(rti.initialize_node(2));
    assert_eq!(rti.scheduling_nodes()[1].num_min_delays(), 0);
    assert_eq!(rti.scheduling_nodes()[1].upstream(), &vec![0]);
    assert!(rti.is_well_formed());
}
