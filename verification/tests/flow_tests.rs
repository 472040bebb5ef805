use packet_scheduling::scheduling::flow::{FixedLengthFlow, Flow, VariableLengthFlow};
use packet_scheduling::scheduling::Packet;

#[test]
fn flow_flow_test() {
    let mut flow = VariableLengthFlow::new();
    assert!(flow.empty());

    flow.packet_arrive(Packet::new("test", 10), 0);
    assert!(!flow.empty());
    assert!(flow.peek_packet(0).is_some());
}

#[test]
fn arrivals_are_kept_in_time_order_and_ties_in_insertion_order() {
    let mut flow = VariableLengthFlow::new();
    flow.packet_arrive(Packet::new("c", 1), 5);
    flow.packet_arrive(Packet::new("a", 2), 1);
    flow.packet_arrive(Packet::new("d", 3), 5);
    flow.packet_arrive(Packet::new("b", 4), 1);
    assert_eq!(
        flow.packet_states,
        vec![
            (Packet::new("a", 2), 1),
            (Packet::new("b", 4), 1),
            (Packet::new("c", 1), 5),
            (Packet::new("d", 3), 5),
        ]
    );
}

#[test]
fn peek_hides_a_head_that_has_not_arrived() {
    let mut flow = VariableLengthFlow::new();
    flow.packet_arrive(Packet::new("late", 7), 3);
    assert!(!flow.empty());
    assert_eq!(flow.peek_packet(2), None);
    assert_eq!(flow.peek_packet(3), Some(Packet::new("late", 7)));
    assert_eq!(flow.pop_packet(), Packet::new("late", 7));
    assert!(flow.empty());
    assert_eq!(flow.peek_packet(100), None);
}

#[test]
fn fixed_length_flow_resizes_what_arrives() {
    let mut flow = FixedLengthFlow::new(4);
    flow.packet_arrive(Packet::new("big", 9), 2);
    flow.add_packet("own", 1);
    flow.packet_arrive(Packet::new("fits", 4), 0);
    assert_eq!(
        flow.packet_states,
        vec![
            (Packet::new("fits", 4), 0),
            (Packet::new("own", 4), 1),
            (Packet::new("big", 4), 2),
        ]
    );
    assert_eq!(flow.peek_packet(0), Some(Packet::new("fits", 4)));
    assert_eq!(flow.pop_packet(), Packet::new("fits", 4));
    assert_eq!(flow.peek_packet(0), None);
}

#[test]
fn fixed_length_new_keeps_its_length() {
    let flow = FixedLengthFlow::new(12);
    assert_eq!(flow.packet_len, 12);
    assert!(flow.empty());
    assert!(flow.packet_states.is_empty());
}
