use rti::propagation::{
    encode_tag_advance_grant, frame_delivered, Action, Propagation, Task, GRANT_FRAME_LENGTH,
};
use rti::rti_common::{RTICommon, SchedulingNode, SchedulingNodeState};
use rti::tag::Tag;

const TAG_TYPE: u8 = 7;
const PTAG_TYPE: u8 = 8;

/// How a grant went out: the node, the tag and whether it was provisional.
type Sent = (u16, Tag, bool);

fn federation(n: u16) -> RTICommon {
    let mut rti = RTICommon::new();
    for id in 0..n {
        assert!(rti.initialize_node(id));
        rti.set_state(id, SchedulingNodeState::Granted);
    }
    rti
}

fn connect(rti: &mut RTICommon, from: u16, to: u16, delay: Option<i64>) {
    rti.register_upstream(to, from, delay);
    rti.register_downstream(from, to);
}

/// Drives a propagation to its end. Sending to a node of `unreachable` fails. The
/// grants that were delivered and the nodes that were waited for are
/// returned.
fn drive(
    rti: &mut RTICommon,
    mut propagation: Propagation,
    start_time: i64,
    unreachable: &[u16],
) -> (Vec<Sent>, Vec<u16>) {
    let mut sent = Vec::new();
    let mut awaited = Vec::new();
    let mut delivered = true;
    for _ in 0..10_000 {
        assert!(rti.is_well_formed());
        assert!(propagation.fits_registry(rti));
        match propagation.step(rti, start_time, delivered) {
            Action::Done => {
                assert!(propagation.is_done());
                return (sent, awaited);
            }
            Action::Continue => {}
            Action::AwaitStart { fed_id } => {
                awaited.push(fed_id);
                rti.set_state(fed_id, SchedulingNodeState::Granted);
            }
            Action::Send { fed_id, grant } => {
                let msg_type = if grant.is_provisional() { PTAG_TYPE } else { TAG_TYPE };
                let frame = encode_tag_advance_grant(msg_type, &grant.tag());
                assert_eq!(frame.len(), GRANT_FRAME_LENGTH);
                delivered = !unreachable.contains(&fed_id);
                if delivered {
                    sent.push((fed_id, grant.tag(), grant.is_provisional()));
                }
            }
        }
    }
    panic!("the propagation did not end");
}

fn on_net(rti: &mut RTICommon, fed: u16, tag: Tag, start_time: i64) -> Vec<Sent> {
    let propagation = SchedulingNode::update_scheduling_node_next_event_tag_locked(rti, fed, tag);
    drive(rti, propagation, start_time, &[]).0
}

fn on_ltc(rti: &mut RTICommon, fed: u16, tag: Tag, start_time: i64) -> Vec<Sent> {
    let propagation = SchedulingNode::logical_tag_complete(rti, fed, tag);
    drive(rti, propagation, start_time, &[]).0
}

#[test]
fn a_grant_frame_holds_type_time_and_microstep_in_little_endian() {
    let frame = encode_tag_advance_grant(TAG_TYPE, &Tag::new(0x0102_0304_0506_0708, 0x0a0b_0c0d));
    assert_eq!(
        frame,
        vec![7, 0x08, 0x07, 0x06, 0x05, 0x04, 0x03, 0x02, 0x01, 0x0d, 0x0c, 0x0b, 0x0a]
    );
}

#[test]
fn a_grant_frame_holds_a_negative_time_in_twos_complement() {
    let frame = encode_tag_advance_grant(PTAG_TYPE, &Tag::new(-2, 1));
    assert_eq!(
        frame,
        vec![8, 0xfe, 0xff, 0xff, 0xff, 0xff, 0xff, 0xff, 0xff, 0x01, 0x00, 0x00, 0x00]
    );
    let never = encode_tag_advance_grant(TAG_TYPE, &Tag::never_tag());
    assert_eq!(never, vec![7, 0, 0, 0, 0, 0, 0, 0, 0x80, 0, 0, 0, 0]);
    let forever = encode_tag_advance_grant(TAG_TYPE, &Tag::forever_tag());
    assert_eq!(
        forever,
        vec![7, 0xff, 0xff, 0xff, 0xff, 0xff, 0xff, 0xff, 0x7f, 0xff, 0xff, 0xff, 0xff]
    );
}

#[test]
fn a_report_of_a_next_event_is_recorded() {
    let mut rti = federation(2);
    connect(&mut rti, 0, 1, Some(5));
    let propagation =
        SchedulingNode::update_scheduling_node_next_event_tag_locked(&mut rti, 1, Tag::new(3, 2));
    assert_eq!(rti.scheduling_nodes()[1].next_event(), Tag::new(3, 2));
    assert_eq!(rti.scheduling_nodes()[0].next_event(), Tag::never_tag());
    assert_eq!(
        propagation.tasks,
        vec![Task::Downstream { fed: 1, next: 0 }, Task::Consider { fed: 1 }]
    );
    assert_eq!(propagation.visited, vec![false, true]);
}

#[test]
fn a_report_of_a_completed_tag_is_recorded() {
    let mut rti = federation(2);
    connect(&mut rti, 0, 1, Some(5));
    let propagation = SchedulingNode::logical_tag_complete(&mut rti, 0, Tag::new(3, 2));
    assert_eq!(rti.scheduling_nodes()[0].completed(), Tag::new(3, 2));
    assert_eq!(rti.scheduling_nodes()[1].completed(), Tag::never_tag());
    assert_eq!(propagation.tasks, vec![Task::Completed { fed: 0, next: 0 }]);
    assert_eq!(propagation.visited, vec![false, false]);
}

#[test]
fn an_isolated_node_is_not_considered_for_a_grant() {
    let mut rti = federation(1);
    let propagation =
        SchedulingNode::update_scheduling_node_next_event_tag_locked(&mut rti, 0, Tag::new(5, 0));
    assert_eq!(propagation.tasks, vec![Task::Downstream { fed: 0, next: 0 }]);
    let (sent, awaited) = drive(&mut rti, propagation, 0, &[]);
    assert_eq!(sent, vec![]);
    assert_eq!(awaited, vec![]);
    assert_eq!(rti.scheduling_nodes()[0].next_event(), Tag::new(5, 0));
    assert_eq!(rti.scheduling_nodes()[0].last_granted(), Tag::never_tag());
}

#[test]
fn a_node_without_upstream_still_sweeps_downstream() {
    let mut rti = federation(2);
    connect(&mut rti, 0, 1, Some(5));
    rti.scheduling_nodes()[1].set_next_event(Tag::new(12, 0));
    assert_eq!(on_net(&mut rti, 0, Tag::new(10, 0), 0), vec![(1, Tag::new(12, 0), false)]);
    assert_eq!(rti.scheduling_nodes()[1].last_granted(), Tag::new(12, 0));
}

#[test]
fn linear_chain_with_a_delay_of_five_nanoseconds() {
    let mut rti = federation(2);
    connect(&mut rti, 0, 1, Some(5));
    assert_eq!(on_net(&mut rti, 0, Tag::new(10, 0), 0), vec![]);
    // The earliest incoming tag (15, 0) lies above the next event of node 1:
    // the grant is at the next event, not at the incoming tag.
    assert_eq!(on_net(&mut rti, 1, Tag::new(10, 0), 0), vec![(1, Tag::new(10, 0), false)]);
    assert_eq!(rti.scheduling_nodes()[1].last_granted(), Tag::new(10, 0));
    // Once node 0 has completed (10, 0), nothing below (15, 0) can come.
    assert_eq!(
        on_ltc(&mut rti, 0, Tag::new(10, 0), 0),
        vec![(1, Tag::new(14, u32::MAX), false)]
    );
    assert_eq!(rti.scheduling_nodes()[1].last_granted(), Tag::new(14, u32::MAX));
    assert_eq!(rti.scheduling_nodes()[1].last_provisionally_granted(), Tag::never_tag());
}

#[test]
fn two_node_zero_delay_cycle() {
    let mut rti = federation(2);
    connect(&mut rti, 0, 1, None);
    connect(&mut rti, 1, 0, None);
    // The provisional grant to node 0 is carried on to node 1, upstream of
    // it, and is not issued to node 0 a second time.
    assert_eq!(
        on_net(&mut rti, 0, Tag::new(100, 0), 100),
        vec![(0, Tag::new(100, 0), true), (1, Tag::new(100, 0), true)]
    );
    assert_eq!(on_net(&mut rti, 1, Tag::new(100, 0), 100), vec![]);
    for id in 0..2 {
        let node = &mut rti.scheduling_nodes()[id];
        assert_eq!(node.flags() & 1, 1);
        assert_eq!(node.last_provisionally_granted(), Tag::new(100, 0));
        assert_eq!(node.last_granted(), Tag::never_tag());
    }
}

#[test]
fn diamond_with_microstep_delays() {
    let mut rti = federation(4);
    connect(&mut rti, 0, 1, Some(0));
    connect(&mut rti, 0, 2, Some(0));
    connect(&mut rti, 1, 3, Some(0));
    connect(&mut rti, 2, 3, Some(0));
    // Node 2 is granted its assumed next event before it reports one: the
    // sweep from node 0 has taken the silent nodes to start at (0, 0).
    assert_eq!(on_net(&mut rti, 0, Tag::zero_tag(), 0), vec![(2, Tag::zero_tag(), false)]);
    assert_eq!(on_net(&mut rti, 1, Tag::zero_tag(), 0), vec![(1, Tag::zero_tag(), false)]);
    assert_eq!(on_net(&mut rti, 2, Tag::zero_tag(), 0), vec![]);
    assert_eq!(on_net(&mut rti, 3, Tag::zero_tag(), 0), vec![(3, Tag::zero_tag(), false)]);
    assert_eq!(
        on_ltc(&mut rti, 0, Tag::zero_tag(), 0),
        vec![(1, Tag::new(0, 1), false), (2, Tag::new(0, 1), false)]
    );
    assert_eq!(on_ltc(&mut rti, 1, Tag::new(0, 1), 0), vec![]);
    assert_eq!(on_ltc(&mut rti, 2, Tag::new(0, 1), 0), vec![(3, Tag::new(0, 2), false)]);
    assert_eq!(rti.scheduling_nodes()[3].last_granted(), Tag::new(0, 2));
}

#[test]
fn a_failed_delivery_disconnects_the_node_and_records_nothing() {
    let mut rti = federation(3);
    connect(&mut rti, 0, 1, Some(5));
    connect(&mut rti, 1, 2, Some(5));
    rti.scheduling_nodes()[0].set_next_event(Tag::new(10, 0));
    rti.scheduling_nodes()[2].set_next_event(Tag::new(50, 0));
    SchedulingNode::update_min_delays_upstream(&mut rti, 2);
    assert_eq!(rti.scheduling_nodes()[2].num_min_delays(), 2);
    let propagation =
        SchedulingNode::update_scheduling_node_next_event_tag_locked(&mut rti, 1, Tag::new(10, 0));
    let (sent, _) = drive(&mut rti, propagation, 0, &[1]);
    // The grant to node 1 is lost. Node 2, downstream, no longer has a
    // connected upstream node to wait for.
    assert_eq!(sent, vec![(2, Tag::forever_tag(), false)]);
    assert_eq!(rti.scheduling_nodes()[1].state(), SchedulingNodeState::NotConnected);
    assert_eq!(rti.scheduling_nodes()[1].last_granted(), Tag::never_tag());
    assert_eq!(rti.scheduling_nodes()[1].last_provisionally_granted(), Tag::never_tag());
    assert_eq!(rti.scheduling_nodes()[0].state(), SchedulingNodeState::Granted);
    assert_eq!(rti.scheduling_nodes()[2].num_min_delays(), 0);
}

#[test]
fn a_grant_to_a_disconnected_node_is_dropped() {
    let mut rti = federation(1);
    rti.set_state(0, SchedulingNodeState::NotConnected);
    let propagation = SchedulingNode::notify_tag_advance_grant(&rti, 0, Tag::new(5, 0));
    assert_eq!(drive(&mut rti, propagation, 0, &[]), (vec![], vec![]));
    assert_eq!(rti.scheduling_nodes()[0].last_granted(), Tag::never_tag());
}

#[test]
fn a_grant_at_or_below_an_earlier_grant_is_dropped() {
    let mut rti = federation(1);
    rti.scheduling_nodes()[0].set_last_granted(Tag::new(5, 0));
    rti.scheduling_nodes()[0].set_last_provisionally_granted(Tag::new(7, 0));
    for tag in [Tag::new(5, 0), Tag::new(4, 9), Tag::new(7, 0), Tag::new(6, 0)] {
        let propagation = SchedulingNode::notify_tag_advance_grant(&rti, 0, tag);
        assert_eq!(drive(&mut rti, propagation, 0, &[]).0, vec![]);
        let propagation = SchedulingNode::notify_provisional_tag_advance_grant(&rti, 0, tag);
        assert_eq!(drive(&mut rti, propagation, 0, &[]).0, vec![]);
    }
    assert_eq!(rti.scheduling_nodes()[0].last_granted(), Tag::new(5, 0));
    assert_eq!(rti.scheduling_nodes()[0].last_provisionally_granted(), Tag::new(7, 0));
    let propagation = SchedulingNode::notify_tag_advance_grant(&rti, 0, Tag::new(7, 1));
    assert_eq!(drive(&mut rti, propagation, 0, &[]).0, vec![(0, Tag::new(7, 1), false)]);
    assert_eq!(rti.scheduling_nodes()[0].last_granted(), Tag::new(7, 1));
    assert_eq!(rti.scheduling_nodes()[0].last_provisionally_granted(), Tag::new(7, 0));
}

#[test]
fn a_grant_to_a_pending_node_waits_for_the_start_time_message() {
    let mut rti = federation(1);
    rti.set_state(0, SchedulingNodeState::Pending);
    let waiting = vec![Task::Rendezvous { fed: 0, tag: Tag::new(5, 0), provisional: false }];
    let mut propagation = SchedulingNode::notify_tag_advance_grant(&rti, 0, Tag::new(5, 0));
    assert_eq!(propagation.step(&mut rti, 0, true), Action::AwaitStart { fed_id: 0 });
    assert_eq!(propagation.tasks, waiting);
    // As long as the node is pending, the grant goes on waiting.
    assert_eq!(propagation.step(&mut rti, 0, true), Action::AwaitStart { fed_id: 0 });
    assert_eq!(propagation.advance(&mut rti, 0, true), Action::AwaitStart { fed_id: 0 });
    assert_eq!(propagation.tasks, waiting);
    rti.set_state(0, SchedulingNodeState::Granted);
    match propagation.step(&mut rti, 0, true) {
        Action::Send { fed_id, grant } => {
            assert_eq!(fed_id, 0);
            assert_eq!(grant.tag(), Tag::new(5, 0));
            assert!(!grant.is_provisional());
        }
        other => panic!("unexpected action {:?}", other),
    }
    assert_eq!(rti.scheduling_nodes()[0].last_granted(), Tag::never_tag());
    assert_eq!(propagation.step(&mut rti, 0, true), Action::Continue);
    assert_eq!(rti.scheduling_nodes()[0].last_granted(), Tag::new(5, 0));
    assert_eq!(propagation.step(&mut rti, 0, true), Action::Done);
}

#[test]
fn a_grant_that_has_waited_is_dropped_if_its_node_has_left() {
    let mut rti = federation(1);
    rti.set_state(0, SchedulingNodeState::Pending);
    let mut propagation = SchedulingNode::notify_tag_advance_grant(&rti, 0, Tag::new(5, 0));
    assert_eq!(propagation.step(&mut rti, 0, true), Action::AwaitStart { fed_id: 0 });
    rti.set_state(0, SchedulingNodeState::NotConnected);
    assert_eq!(propagation.step(&mut rti, 0, true), Action::Continue);
    assert!(propagation.is_done());
    assert_eq!(propagation.step(&mut rti, 0, true), Action::Done);
    assert_eq!(rti.scheduling_nodes()[0].last_granted(), Tag::never_tag());
}

#[test]
fn a_grant_that_has_waited_is_dropped_if_its_node_was_granted_as_much_meanwhile() {
    let mut rti = federation(1);
    rti.set_state(0, SchedulingNodeState::Pending);
    let mut propagation =
        SchedulingNode::notify_provisional_tag_advance_grant(&rti, 0, Tag::new(5, 0));
    assert_eq!(propagation.advance(&mut rti, 0, true), Action::AwaitStart { fed_id: 0 });
    rti.set_state(0, SchedulingNodeState::Granted);
    rti.scheduling_nodes()[0].set_last_granted(Tag::new(5, 0));
    assert_eq!(propagation.advance(&mut rti, 0, true), Action::Done);
    assert_eq!(rti.scheduling_nodes()[0].last_provisionally_granted(), Tag::never_tag());
}

#[test]
fn a_grant_is_delivered_only_if_its_whole_frame_went_out() {
    assert!(frame_delivered(Some(GRANT_FRAME_LENGTH)));
    assert!(frame_delivered(Some(13)));
    assert!(!frame_delivered(Some(12)));
    assert!(!frame_delivered(Some(9)));
    assert!(!frame_delivered(Some(0)));
    assert!(!frame_delivered(Some(14)));
    assert!(!frame_delivered(None));
}

#[test]
fn two_node_zero_delay_cycle_from_the_start_of_time() {
    let mut rti = federation(2);
    connect(&mut rti, 0, 1, None);
    connect(&mut rti, 1, 0, None);
    on_net(&mut rti, 0, Tag::new(100, 0), 0);
    let sent = on_net(&mut rti, 1, Tag::new(100, 0), 0);
    assert_eq!(sent, vec![(1, Tag::new(100, 0), true), (0, Tag::new(100, 0), true)]);
    for id in 0..2 {
        let node = &mut rti.scheduling_nodes()[id];
        assert_eq!(node.next_event(), Tag::new(100, 0));
        // No full grant is issued at the common tag.
        assert_ne!(node.last_granted(), Tag::new(100, 0));
        assert_eq!(node.last_granted(), Tag::never_tag());
        assert_eq!(node.last_provisionally_granted(), Tag::new(100, 0));
    }
}

#[test]
fn diamond_after_the_source_has_completed_the_start_tag() {
    let mut rti = federation(4);
    connect(&mut rti, 0, 1, Some(0));
    connect(&mut rti, 0, 2, Some(0));
    connect(&mut rti, 1, 3, Some(0));
    connect(&mut rti, 2, 3, Some(0));
    for fed in 0..4 {
        on_net(&mut rti, fed, Tag::zero_tag(), 0);
    }
    on_ltc(&mut rti, 0, Tag::zero_tag(), 0);
    assert_eq!(rti.scheduling_nodes()[0].completed(), Tag::zero_tag());
    for id in 1..4 {
        assert_eq!(rti.scheduling_nodes()[id].completed(), Tag::never_tag());
    }
    assert_eq!(rti.scheduling_nodes()[0].last_granted(), Tag::never_tag());
    assert_eq!(rti.scheduling_nodes()[1].last_granted(), Tag::new(0, 1));
    assert_eq!(rti.scheduling_nodes()[2].last_granted(), Tag::new(0, 1));
    assert_eq!(rti.scheduling_nodes()[3].last_granted(), Tag::zero_tag());
}

#[test]
fn a_provisional_grant_is_carried_upstream_past_a_failed_delivery() {
    let mut rti = federation(2);
    connect(&mut rti, 0, 1, None);
    connect(&mut rti, 1, 0, None);
    rti.scheduling_nodes()[0].set_next_event(Tag::new(100, 0));
    rti.scheduling_nodes()[1].set_next_event(Tag::new(100, 0));
    let propagation =
        SchedulingNode::notify_provisional_tag_advance_grant(&rti, 1, Tag::new(100, 0));
    let (sent, _) = drive(&mut rti, propagation, 0, &[1]);
    assert_eq!(sent, vec![(0, Tag::new(100, 0), true)]);
    assert_eq!(rti.scheduling_nodes()[1].state(), SchedulingNodeState::NotConnected);
    assert_eq!(rti.scheduling_nodes()[1].last_provisionally_granted(), Tag::never_tag());
    assert_eq!(rti.scheduling_nodes()[0].last_provisionally_granted(), Tag::new(100, 0));
}

#[test]
fn a_provisional_grant_stops_at_an_upstream_node_with_an_earlier_incoming_tag() {
    let mut rti = federation(3);
    connect(&mut rti, 0, 1, None);
    connect(&mut rti, 1, 2, None);
    rti.scheduling_nodes()[0].set_next_event(Tag::new(50, 0));
    rti.scheduling_nodes()[1].set_next_event(Tag::new(100, 0));
    let propagation =
        SchedulingNode::notify_provisional_tag_advance_grant(&rti, 2, Tag::new(100, 0));
    // Node 1 may still get a message at (50, 0) from node 0.
    let (sent, _) = drive(&mut rti, propagation, 0, &[]);
    assert_eq!(sent, vec![(2, Tag::new(100, 0), true)]);
}

#[test]
fn a_downstream_sweep_passes_over_marked_nodes() {
    let mut rti = federation(3);
    connect(&mut rti, 0, 1, Some(5));
    connect(&mut rti, 0, 2, Some(5));
    rti.scheduling_nodes()[0].set_next_event(Tag::new(10, 0));
    rti.scheduling_nodes()[1].set_next_event(Tag::new(10, 0));
    rti.scheduling_nodes()[2].set_next_event(Tag::new(10, 0));
    let propagation = SchedulingNode::notify_downstream_advance_grant_if_safe(
        &rti,
        0,
        vec![false, true, false],
    );
    assert_eq!(propagation.visited, vec![true, true, false]);
    let (sent, _) = drive(&mut rti, propagation, 0, &[]);
    assert_eq!(sent, vec![(2, Tag::new(10, 0), false)]);
}

#[test]
fn considering_one_node_issues_its_grant_only() {
    let mut rti = federation(3);
    connect(&mut rti, 0, 1, Some(5));
    connect(&mut rti, 1, 2, Some(5));
    rti.scheduling_nodes()[0].set_next_event(Tag::new(10, 0));
    rti.scheduling_nodes()[1].set_next_event(Tag::new(10, 0));
    rti.scheduling_nodes()[2].set_next_event(Tag::new(10, 0));
    let propagation = SchedulingNode::notify_advance_grant_if_safe(&rti, 1);
    let (sent, _) = drive(&mut rti, propagation, 0, &[]);
    assert_eq!(sent, vec![(1, Tag::new(10, 0), false)]);
}

#[test]
fn grants_never_go_down_along_a_run() {
    let mut rti = federation(4);
    connect(&mut rti, 0, 1, Some(0));
    connect(&mut rti, 0, 2, Some(3));
    connect(&mut rti, 1, 3, None);
    connect(&mut rti, 2, 3, Some(0));
    connect(&mut rti, 3, 1, None);
    let mut last: Vec<(Tag, Tag)> = vec![(Tag::never_tag(), Tag::never_tag()); 4];
    for round in 0..6i64 {
        for fed in 0..4u16 {
            let mut all = on_net(&mut rti, fed, Tag::new(round * 2, 0), 0);
            all.extend(on_ltc(&mut rti, fed, Tag::new(round * 2, 0), 0));
            for (to, tag, provisional) in all {
                let seen = &mut last[to as usize];
                if provisional {
                    assert_eq!(Tag::lf_tag_compare(&tag, &seen.1), 1);
                    seen.1 = tag;
                } else {
                    assert_eq!(Tag::lf_tag_compare(&tag, &seen.0), 1);
                    seen.0 = tag;
                }
            }
            for id in 0..4usize {
                assert_eq!(rti.scheduling_nodes()[id].last_granted(), last[id].0);
                assert_eq!(rti.scheduling_nodes()[id].last_provisionally_granted(), last[id].1);
            }
        }
    }
}

/// Drives a propagation to its end with `advance`, delivering every grant.
fn advance_to_the_end(
    rti: &mut RTICommon,
    mut propagation: Propagation,
    start_time: i64,
) -> Vec<Sent> {
    let mut sent = Vec::new();
    for _ in 0..1_000 {
        match propagation.advance(rti, start_time, true) {
            Action::Done => return sent,
            Action::Continue => panic!("advance stopped without a reason"),
            Action::AwaitStart { .. } => {}
            Action::Send { fed_id, grant } => {
                sent.push((fed_id, grant.tag(), grant.is_provisional()))
            }
        }
    }
    panic!("the propagation did not end");
}

#[test]
fn advancing_takes_the_steps_up_to_the_next_grant() {
    let mut rti = federation(4);
    connect(&mut rti, 0, 1, Some(0));
    connect(&mut rti, 0, 2, Some(0));
    connect(&mut rti, 1, 3, Some(0));
    connect(&mut rti, 2, 3, Some(0));
    for id in 1..4 {
        rti.scheduling_nodes()[id].set_next_event(Tag::zero_tag());
    }
    let mut propagation =
        SchedulingNode::update_scheduling_node_next_event_tag_locked(&mut rti, 0, Tag::zero_tag());
    let first = propagation.advance(&mut rti, 0, true);
    assert_eq!(
        first,
        Action::Send {
            fed_id: 1,
            grant: rti::rti_common::TagAdvanceGrant::new(Tag::zero_tag(), false)
        }
    );
    assert_eq!(
        propagation.tasks,
        vec![
            Task::Downstream { fed: 0, next: 1 },
            Task::Downstream { fed: 1, next: 0 },
            Task::Delivery { fed: 1, tag: Tag::zero_tag(), provisional: false },
        ]
    );
    assert_eq!(rti.scheduling_nodes()[1].last_granted(), Tag::never_tag());
    let second = propagation.advance(&mut rti, 0, true);
    assert_eq!(rti.scheduling_nodes()[1].last_granted(), Tag::zero_tag());
    assert_eq!(
        second,
        Action::Send {
            fed_id: 3,
            grant: rti::rti_common::TagAdvanceGrant::new(Tag::zero_tag(), false)
        }
    );
    assert_eq!(propagation.visited, vec![true, true, false, true]);
}

#[test]
fn advancing_and_stepping_issue_the_same_grants() {
    let build = || {
        let mut rti = federation(4);
        connect(&mut rti, 0, 1, Some(0));
        connect(&mut rti, 0, 2, Some(3));
        connect(&mut rti, 1, 3, None);
        connect(&mut rti, 2, 3, Some(0));
        connect(&mut rti, 3, 1, None);
        rti
    };
    let mut stepped = build();
    let mut advanced = build();
    for round in 0..5i64 {
        for fed in 0..4u16 {
            let tag = Tag::new(round * 3, 0);
            let by_steps = on_net(&mut stepped, fed, tag, 0);
            let propagation = SchedulingNode::update_scheduling_node_next_event_tag_locked(
                &mut advanced,
                fed,
                tag,
            );
            assert_eq!(advance_to_the_end(&mut advanced, propagation, 0), by_steps);
            let by_steps = on_ltc(&mut stepped, fed, tag, 0);
            let propagation = SchedulingNode::logical_tag_complete(&mut advanced, fed, tag);
            assert_eq!(advance_to_the_end(&mut advanced, propagation, 0), by_steps);
        }
    }
}

#[test]
fn advancing_an_empty_walk_is_done() {
    let mut rti = federation(1);
    let mut propagation = Propagation { tasks: vec![], visited: vec![false] };
    assert_eq!(propagation.advance(&mut rti, 0, true), Action::Done);
    assert_eq!(propagation.step(&mut rti, 0, true), Action::Done);
    assert!(propagation.is_done());
}

#[test]
fn a_tasks_fit_a_registry_of_its_size_only() {
    let rti = federation(2);
    let propagation = SchedulingNode::notify_advance_grant_if_safe(&rti, 1);
    assert!(propagation.fits_registry(&rti));
    assert!(!propagation.fits_registry(&federation(1)));
    assert!(!propagation.fits_registry(&federation(3)));
    let stray = Propagation { tasks: vec![Task::Consider { fed: 2 }], visited: vec![false, false] };
    assert!(!stray.fits_registry(&rti));
}

#[test]
fn completed_tags_stay_below_granted_tags_when_nodes_complete_what_they_were_granted() {
    let mut rti = federation(3);
    connect(&mut rti, 0, 1, Some(2));
    connect(&mut rti, 1, 2, Some(0));
    // Node 0 has no upstream node and is never granted a tag: the order is
    // kept for the nodes that are.
    for round in 1..8i64 {
        on_net(&mut rti, 0, Tag::new(round * 10, 0), 0);
        on_ltc(&mut rti, 0, Tag::new(round * 10, 0), 0);
        for fed in 1..3u16 {
            on_net(&mut rti, fed, Tag::new(round * 10, 0), 0);
            let granted = rti.scheduling_nodes()[fed as usize].last_granted();
            on_ltc(&mut rti, fed, granted, 0);
            for id in 1..3usize {
                let node = &rti.scheduling_nodes[id];
                assert!(Tag::lf_tag_compare(&node.completed(), &node.last_granted()) <= 0);
            }
        }
    }
    assert_eq!(rti.scheduling_nodes()[1].last_granted(), Tag::new(71, u32::MAX));
}

#[test]
fn a_finished_sweep_has_marked_every_node_downstream() {
    let mut rti = federation(6);
    connect(&mut rti, 0, 1, Some(0));
    connect(&mut rti, 1, 2, Some(1));
    connect(&mut rti, 2, 1, None);
    connect(&mut rti, 2, 3, None);
    connect(&mut rti, 4, 0, Some(2));
    connect(&mut rti, 5, 4, Some(2));
    let mut propagation =
        SchedulingNode::update_scheduling_node_next_event_tag_locked(&mut rti, 0, Tag::new(5, 0));
    for _ in 0..1_000 {
        if propagation.advance(&mut rti, 0, true) == Action::Done {
            break;
        }
    }
    assert!(propagation.is_done());
    // Nodes 1, 2 and 3 are downstream of node 0; nodes 4 and 5 are not.
    assert_eq!(propagation.visited, vec![true, true, true, true, false, false]);
}

#[test]
fn a_provisional_propagation_sends_each_node_one_frame_at_most() {
    // A ring of four nodes without delays, with a chord.
    let mut rti = federation(5);
    connect(&mut rti, 0, 1, None);
    connect(&mut rti, 1, 2, None);
    connect(&mut rti, 2, 3, None);
    connect(&mut rti, 3, 0, None);
    connect(&mut rti, 1, 3, None);
    connect(&mut rti, 4, 0, Some(1));
    for id in 0..5 {
        rti.scheduling_nodes()[id].set_next_event(Tag::new(7, 0));
    }
    rti.scheduling_nodes()[2].set_last_granted(Tag::new(7, 0));
    let before: Vec<(Tag, Tag)> = (0..5)
        .map(|id| {
            let node = &rti.scheduling_nodes[id];
            (node.last_granted(), node.last_provisionally_granted())
        })
        .collect();
    let mut propagation =
        SchedulingNode::notify_provisional_tag_advance_grant(&rti, 0, Tag::new(7, 0));
    let mut handed_out = vec![0; 5];
    let mut delivered_to = vec![false; 5];
    let mut delivered = true;
    for _ in 0..1_000 {
        match propagation.step(&mut rti, 0, delivered) {
            Action::Done => break,
            Action::Send { fed_id, grant } => {
                assert_eq!(grant.tag(), Tag::new(7, 0));
                assert!(grant.is_provisional());
                handed_out[fed_id as usize] += 1;
                // The frame to node 3 does not go out.
                delivered = fed_id != 3;
                delivered_to[fed_id as usize] = delivered;
            }
            _ => {}
        }
    }
    assert!(propagation.is_done());
    assert!(handed_out.iter().all(|&frames| frames <= 1));
    // Node 2 was granted the tag before; node 4 is upstream of node 0.
    assert_eq!(handed_out, vec![1, 1, 0, 1, 1]);
    for id in 0..5 {
        let node = &rti.scheduling_nodes[id];
        assert_eq!(node.last_granted(), before[id].0);
        if delivered_to[id] {
            assert_eq!(node.last_provisionally_granted(), Tag::new(7, 0));
            assert_eq!(Tag::lf_tag_compare(&before[id].1, &Tag::new(7, 0)), -1);
        } else {
            assert_eq!(node.last_provisionally_granted(), before[id].1);
        }
    }
    assert_eq!(rti.scheduling_nodes[3].state(), SchedulingNodeState::NotConnected);
}

#[test]
fn a_sweep_decides_once_for_each_node_downstream_and_not_for_its_own_node() {
    let mut rti = federation(6);
    connect(&mut rti, 0, 1, Some(0));
    connect(&mut rti, 1, 2, Some(1));
    connect(&mut rti, 2, 1, None);
    connect(&mut rti, 2, 0, Some(3));
    connect(&mut rti, 2, 3, None);
    connect(&mut rti, 1, 3, None);
    connect(&mut rti, 4, 0, Some(2));
    connect(&mut rti, 5, 4, Some(2));
    for id in 0..6 {
        rti.scheduling_nodes()[id].set_next_event(Tag::new(5, 0));
    }
    let mut propagation =
        SchedulingNode::notify_downstream_advance_grant_if_safe(&rti, 0, vec![false; 6]);
    let mut decisions = vec![0; 6];
    for _ in 0..1_000 {
        if let Some(Task::Consider { fed }) = propagation.tasks.last() {
            decisions[*fed as usize] += 1;
        }
        if propagation.step(&mut rti, 0, true) == Action::Done {
            break;
        }
    }
    assert!(propagation.is_done());
    // Node 0 lies on a cycle through nodes 1 and 2 and is not decided on.
    assert_eq!(propagation.visited, vec![true, true, true, true, false, false]);
    assert_eq!(decisions, vec![0, 1, 1, 1, 0, 0]);
}

#[test]
fn nodes_on_zero_delay_cycles_are_never_granted_in_full() {
    // Two zero-delay cycles that share node 1.
    let mut rti = federation(3);
    connect(&mut rti, 0, 1, None);
    connect(&mut rti, 1, 0, None);
    connect(&mut rti, 1, 2, None);
    connect(&mut rti, 2, 1, None);
    for round in 1..6i64 {
        for fed in 0..3u16 {
            for (_, _, provisional) in on_net(&mut rti, fed, Tag::new(round * 10, 0), 0) {
                assert!(provisional);
            }
            for id in 0..3usize {
                assert_eq!(rti.scheduling_nodes()[id].last_granted(), Tag::never_tag());
            }
        }
    }
    assert_eq!(rti.scheduling_nodes()[1].last_provisionally_granted(), Tag::new(50, 0));
}

#[test]
fn a_reported_next_event_stays_through_a_propagation() {
    let mut rti = federation(3);
    connect(&mut rti, 0, 1, None);
    connect(&mut rti, 1, 0, None);
    connect(&mut rti, 2, 1, Some(1));
    on_net(&mut rti, 0, Tag::new(100, 0), 7);
    assert_eq!(rti.scheduling_nodes()[0].next_event(), Tag::new(100, 0));
    // The silent nodes are taken to send at the start.
    assert_eq!(rti.scheduling_nodes()[1].next_event(), Tag::new(7, 0));
    assert_eq!(rti.scheduling_nodes()[2].next_event(), Tag::new(7, 0));
    on_net(&mut rti, 1, Tag::new(100, 0), 7);
    on_ltc(&mut rti, 2, Tag::new(3, 0), 7);
    assert_eq!(rti.scheduling_nodes()[0].next_event(), Tag::new(100, 0));
    assert_eq!(rti.scheduling_nodes()[1].next_event(), Tag::new(100, 0));
    assert_eq!(rti.scheduling_nodes()[2].next_event(), Tag::new(7, 0));
}

#[test]
fn a_node_is_granted_the_strict_delay_of_what_all_its_upstream_nodes_completed() {
    let mut rti = federation(4);
    connect(&mut rti, 0, 2, Some(4));
    connect(&mut rti, 1, 2, Some(4));
    connect(&mut rti, 2, 3, Some(1));
    for fed in 0..4 {
        on_net(&mut rti, fed, Tag::new(5, 0), 0);
    }
    assert_eq!(rti.scheduling_nodes()[2].last_granted(), Tag::new(5, 0));
    // One upstream node has completed the tag: the other still holds
    // node 2 back.
    assert_eq!(on_ltc(&mut rti, 0, Tag::new(10, 0), 0), vec![]);
    assert_eq!(rti.scheduling_nodes()[2].last_granted(), Tag::new(5, 0));
    assert_eq!(on_ltc(&mut rti, 1, Tag::new(10, 0), 0), vec![(2, Tag::new(13, u32::MAX), false)]);
    assert_eq!(rti.scheduling_nodes()[2].last_granted(), Tag::new(13, u32::MAX));
    assert_eq!(rti.scheduling_nodes()[3].last_granted(), Tag::new(5, 0));
}
