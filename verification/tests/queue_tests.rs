use packet_scheduling::flow::Flow;
use packet_scheduling::packet::Packet;

#[test]
fn flow_test() {
    let mut flow = Flow::new();
    assert!(flow.empty());

    flow.add_packet(Packet::new(0, 10, 0));
    assert!(!flow.empty());
    assert!(flow.peek_packet(0).is_some());
}

#[test]
fn packet_new_keeps_its_fields() {
    let packet = Packet::new(4, 10, 7);
    assert_eq!(packet.index, 4);
    assert_eq!(packet.len, 10);
    assert_eq!(packet.arrival_time, 7);
}

#[test]
fn packets_are_kept_in_arrival_order_and_ties_in_insertion_order() {
    let mut flow = Flow::new();
    flow.add_packet(Packet::new(0, 1, 9));
    flow.add_packet(Packet::new(1, 1, 3));
    flow.add_packet(Packet::new(2, 1, 9));
    flow.add_packet(Packet::new(3, 1, 3));
    flow.add_packet(Packet::new(4, 1, 0));
    let order: Vec<(usize, usize)> = flow.packets.iter().map(|p| (p.index, p.arrival_time)).collect();
    assert_eq!(order, vec![(4, 0), (1, 3), (3, 3), (0, 9), (2, 9)]);
}

#[test]
fn peek_and_pop_follow_the_head() {
    let mut flow = Flow::new();
    flow.add_packet(Packet::new(0, 5, 4));
    flow.add_packet(Packet::new(1, 6, 2));
    assert!(flow.peek_packet(1).is_none());
    assert_eq!(flow.peek_packet(2).map(|p| p.index), Some(1));
    let first = flow.pop_packet();
    assert_eq!((first.index, first.len, first.arrival_time), (1, 6, 2));
    assert!(flow.peek_packet(3).is_none());
    assert_eq!(flow.peek_packet(4).map(|p| p.index), Some(0));
    let second = flow.pop_packet();
    assert_eq!(second.index, 0);
    assert!(flow.empty());
    assert!(flow.peek_packet(100).is_none());
}
