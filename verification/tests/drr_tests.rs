use packet_scheduling::scheduling::flow::{Flow, VariableLengthFlow};
use packet_scheduling::scheduling::schedulers::drr::DRRScheduler;
use packet_scheduling::scheduling::Packet;

#[test]
fn ddr_test() {
    let mut scheduler = DRRScheduler::new(1);

    let mut flow = VariableLengthFlow::new();
    flow.packet_arrive(Packet::new("1_1", 3), 0);
    flow.packet_arrive(Packet::new("1_2", 4), 8);
    scheduler.add_flow(flow, 3);

    let mut flow = VariableLengthFlow::new();
    flow.packet_arrive(Packet::new("2_1", 3), 0);
    flow.packet_arrive(Packet::new("2_2", 1), 12);
    scheduler.add_flow(flow, 2);

    let mut flow = VariableLengthFlow::new();
    flow.packet_arrive(Packet::new("3_1", 6), 0);
    flow.packet_arrive(Packet::new("3_2", 1), 11);
    scheduler.add_flow(flow, 5);

    scheduler.run();

    assert_eq!(scheduler.timer(), 15);

    let output = scheduler.get_output_port().get_output();

    assert_eq!(output.len(), 6);
    assert_eq!(
        output,
        &vec![
            Packet::new("1_1", 3),
            Packet::new("2_1", 3),
            Packet::new("3_1", 6),
            Packet::new("2_2", 1),
            Packet::new("3_2", 1),
            Packet::new("1_2", 4)
        ]
    );
}

#[test]
fn drr_departures_name_flow_and_arrival() {
    let mut scheduler = DRRScheduler::new(1);

    let mut flow = VariableLengthFlow::new();
    flow.packet_arrive(Packet::new("1_1", 3), 0);
    flow.packet_arrive(Packet::new("1_2", 4), 8);
    scheduler.add_flow(flow, 3);

    let mut flow = VariableLengthFlow::new();
    flow.packet_arrive(Packet::new("2_1", 3), 0);
    flow.packet_arrive(Packet::new("2_2", 1), 12);
    scheduler.add_flow(flow, 2);

    let mut flow = VariableLengthFlow::new();
    flow.packet_arrive(Packet::new("3_1", 6), 0);
    flow.packet_arrive(Packet::new("3_2", 1), 11);
    scheduler.add_flow(flow, 5);

    scheduler.run();

    assert_eq!(
        scheduler.departures(),
        &vec![(0, 0), (1, 0), (2, 0), (1, 12), (2, 11), (0, 8)]
    );
    assert!(scheduler.get_output_port().empty());
}

#[test]
fn drr_waits_for_credit_and_forfeits_it_when_idle() {
    let mut scheduler = DRRScheduler::new(10);
    let mut slow = VariableLengthFlow::new();
    slow.packet_arrive(Packet::new("big", 5), 0);
    let mut idle = VariableLengthFlow::new();
    idle.packet_arrive(Packet::new("later", 3), 4);
    scheduler.add_flow(slow, 2);
    scheduler.add_flow(idle, 2);

    // tick 1: 2 < 5, no packet is sent; the idle flow forfeits its credit
    assert!(scheduler.tick());
    assert!(scheduler.departures().is_empty());
    // tick 2: 4 < 5
    assert!(scheduler.tick());
    assert!(scheduler.departures().is_empty());
    // tick 3: 6 >= 5
    assert!(scheduler.tick());
    assert_eq!(scheduler.departures(), &vec![(0, 0)]);
    // tick 4: "later" has arrived, but the flow holds only the 2 of the
    // last replenishment
    assert!(scheduler.tick());
    assert_eq!(scheduler.departures().len(), 1);
    // tick 5: 4 >= 3
    assert!(scheduler.tick());
    assert_eq!(scheduler.departures(), &vec![(0, 0), (1, 4)]);
    assert!(!scheduler.tick());
    assert_eq!(scheduler.timer(), 5);
}

#[test]
fn drr_round_serves_each_flow_once() {
    let mut scheduler = DRRScheduler::new(100);
    let mut a = VariableLengthFlow::new();
    a.packet_arrive(Packet::new("a1", 1), 0);
    a.packet_arrive(Packet::new("a2", 1), 0);
    a.packet_arrive(Packet::new("a3", 1), 0);
    let mut b = VariableLengthFlow::new();
    b.packet_arrive(Packet::new("b1", 1), 0);
    scheduler.add_flow(a, 50);
    scheduler.add_flow(b, 50);

    // credit for many packets, yet one packet of each flow in a round
    assert!(scheduler.schedule());
    assert_eq!(scheduler.departures(), &vec![(0, 0), (1, 0)]);
    // the port is busy now: no round
    assert!(!scheduler.schedule());
    assert_eq!(scheduler.departures().len(), 2);
}

#[test]
fn drr_holds_back_while_the_port_is_busy() {
    let mut scheduler = DRRScheduler::new(2);
    let mut a = VariableLengthFlow::new();
    a.packet_arrive(Packet::new("a1", 5), 0);
    a.packet_arrive(Packet::new("a2", 1), 0);
    scheduler.add_flow(a, 5);
    assert!(scheduler.tick()); // a1 admitted, 5 units of load
    assert!(scheduler.tick()); // 3 left
    assert!(scheduler.tick()); // 1 left
    assert_eq!(scheduler.departures().len(), 1);
    assert!(scheduler.tick()); // idle again: a2 admitted
    assert_eq!(scheduler.departures().len(), 2);
    assert!(!scheduler.tick());
    assert_eq!(scheduler.timer(), 4);
    assert!(!scheduler.get_output_port().empty());
    scheduler.run();
    assert!(scheduler.get_output_port().empty());
    assert_eq!(scheduler.timer(), 4);
}

#[test]
fn drr_run_conserves_and_keeps_arrival_order() {
    let mut scheduler = DRRScheduler::new(3);
    let mut a = VariableLengthFlow::new();
    a.packet_arrive(Packet::new("a2", 4), 6);
    a.packet_arrive(Packet::new("a1", 7), 1);
    a.packet_arrive(Packet::new("a3", 2), 6);
    let mut b = VariableLengthFlow::new();
    b.packet_arrive(Packet::new("b1", 5), 0);
    b.packet_arrive(Packet::new("b2", 5), 2);
    scheduler.add_flow(a, 2);
    scheduler.add_flow(b, 4);
    scheduler.run();

    let served = scheduler.departures().clone();
    let output = scheduler.get_output_port().get_output().clone();
    let of_a: Vec<(Packet, usize)> = served
        .iter()
        .zip(output.iter())
        .filter(|(s, _)| s.0 == 0)
        .map(|(s, p)| (*p, s.1))
        .collect();
    let of_b: Vec<(Packet, usize)> = served
        .iter()
        .zip(output.iter())
        .filter(|(s, _)| s.0 == 1)
        .map(|(s, p)| (*p, s.1))
        .collect();
    assert_eq!(
        of_a,
        vec![(Packet::new("a1", 7), 1), (Packet::new("a2", 4), 6), (Packet::new("a3", 2), 6)]
    );
    assert_eq!(of_b, vec![(Packet::new("b1", 5), 0), (Packet::new("b2", 5), 2)]);
    assert!(scheduler.get_output_port().empty());
    assert!(!scheduler.tick());
}

#[test]
fn drr_without_flows_ends_at_once() {
    let mut scheduler = DRRScheduler::new(1);
    scheduler.run();
    assert_eq!(scheduler.timer(), 0);
    assert!(scheduler.get_output_port().get_output().is_empty());
}
