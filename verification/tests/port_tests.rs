use packet_scheduling::scheduling::{Packet, Port};

#[test]
fn port_starts_idle_with_its_rate() {
    let mut port = Port::new(3, 8);
    assert_eq!(port.id, 3);
    assert_eq!(port.get_bandwidth(), 8);
    assert!(port.empty());
    assert!(port.get_output().is_empty());
}

#[test]
fn port_drains_by_its_capacity_and_not_below_zero() {
    let mut port = Port::new(0, 4);
    port.submit(Packet::new("a", 10));
    assert!(!port.empty());
    assert!(!port.tick()); // 6 left
    assert!(!port.empty());
    assert!(!port.tick()); // 2 left
    assert!(!port.empty());
    assert!(!port.tick()); // 0 left, not -2
    assert!(port.empty());
    port.submit(Packet::new("b", 4));
    assert!(!port.empty());
    assert!(!port.tick());
    assert!(port.empty());
}

#[test]
fn port_carries_spare_capacity_from_one_packet_to_the_next() {
    // 3 + 3 units at 2 per tick take 3 ticks
    let mut port = Port::new(0, 2);
    port.submit(Packet::new("a", 3));
    port.submit(Packet::new("b", 3));
    port.tick();
    port.tick();
    assert!(!port.empty());
    port.tick();
    assert!(port.empty());
}

#[test]
fn port_history_is_the_admission_order() {
    let mut port = Port::new(0, 1);
    port.submit(Packet::new("a", 2));
    port.submit(Packet::new("b", 1));
    port.submit(Packet::new("c", 0));
    assert_eq!(
        port.get_output(),
        &vec![Packet::new("a", 2), Packet::new("b", 1), Packet::new("c", 0)]
    );
}

#[test]
fn proceed_rest_flushes_the_load_and_keeps_the_history() {
    let mut port = Port::new(0, 1);
    port.submit(Packet::new("a", 50));
    port.tick();
    assert!(!port.empty());
    port.proceed_rest();
    assert!(port.empty());
    assert_eq!(port.get_output(), &vec![Packet::new("a", 50)]);
}

#[test]
fn a_port_without_capacity_never_drains() {
    let mut port = Port::new(0, 0);
    port.submit(Packet::new("a", 1));
    port.tick();
    port.tick();
    assert!(!port.empty());
}

#[test]
fn packet_new_keeps_name_and_length() {
    let packet = Packet::new("n", 42);
    assert_eq!(packet.name, "n");
    assert_eq!(packet.len, 42);
}
