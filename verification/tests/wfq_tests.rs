use packet_scheduling::scheduling::flow::{Flow, VariableLengthFlow};
use packet_scheduling::scheduling::schedulers::wfq::WFQScheduler;
use packet_scheduling::scheduling::Packet;

/// A seed under which the three ties of `wfq_test` fall so that the packets
/// leave in the order asserted there.
const TIE_SEED: u64 = 23;

#[test]
fn wfq_test() {
    // shares 2 : 1 : 1 of a total of 4, that is 0.5, 0.25 and 0.25
    let mut wfq = WFQScheduler::with_seed(1, TIE_SEED);

    let mut flow1 = VariableLengthFlow::new();
    flow1.packet_arrive(Packet::new("p1", 1), 0);
    flow1.packet_arrive(Packet::new("p4", 1), 2);
    flow1.packet_arrive(Packet::new("p6", 1), 5);
    wfq.add_flow(flow1, 2);

    let mut flow2 = VariableLengthFlow::new();
    flow2.packet_arrive(Packet::new("p2", 1), 0);
    flow2.packet_arrive(Packet::new("p5", 1), 3);
    flow2.packet_arrive(Packet::new("p9", 1), 7);
    wfq.add_flow(flow2, 1);

    let mut flow3 = VariableLengthFlow::new();
    flow3.packet_arrive(Packet::new("p3", 1), 0);
    flow3.packet_arrive(Packet::new("p7", 1), 5);
    flow3.packet_arrive(Packet::new("p8", 1), 6);
    wfq.add_flow(flow3, 1);

    wfq.run();

    assert_eq!(wfq.timer(), 9);

    let output = wfq.get_output_port().get_output();

    assert_eq!(output.len(), 9);
    assert_eq!(
        output,
        &vec![
            Packet::new("p1", 1),
            Packet::new("p2", 1),
            Packet::new("p4", 1),
            Packet::new("p3", 1),
            Packet::new("p5", 1),
            Packet::new("p6", 1),
            Packet::new("p7", 1),
            Packet::new("p8", 1),
            Packet::new("p9", 1),
        ]
    );
}

#[test]
fn wfq_same_seed_same_run() {
    let mut first = Vec::new();
    for round in 0..2 {
        let mut wfq = WFQScheduler::with_seed(1, 7);
        for f in 0..4 {
            let mut flow = VariableLengthFlow::new();
            flow.packet_arrive(Packet::new("x", 1), 0);
            flow.packet_arrive(Packet::new("y", 1), 0);
            wfq.add_flow(flow, 1 + (f % 2));
        }
        wfq.run();
        assert_eq!(wfq.timer(), 8);
        if round == 0 {
            first = wfq.departures().clone();
        } else {
            assert_eq!(&first, wfq.departures());
        }
    }
}

#[test]
fn wfq_serves_the_least_estimate() {
    // estimates: 6 / (1/6) = 36, 4 / (2/6) = 12, 9 / (3/6) = 18
    let mut wfq = WFQScheduler::new(1);
    let mut a = VariableLengthFlow::new();
    a.packet_arrive(Packet::new("a", 6), 0);
    let mut b = VariableLengthFlow::new();
    b.packet_arrive(Packet::new("b", 4), 0);
    let mut c = VariableLengthFlow::new();
    c.packet_arrive(Packet::new("c", 9), 0);
    wfq.add_flow(a, 1);
    wfq.add_flow(b, 2);
    wfq.add_flow(c, 3);

    assert_eq!(wfq.schedule(), Some(1));
    assert_eq!(wfq.schedule_with(&vec![true, true, true]), Some(1));
    wfq.run();
    assert_eq!(wfq.timer(), 3);
    assert_eq!(wfq.departures(), &vec![(1, 0), (2, 0), (0, 0)]);
    assert_eq!(
        wfq.get_output_port().get_output(),
        &vec![Packet::new("b", 4), Packet::new("c", 9), Packet::new("a", 6)]
    );
}

#[test]
fn wfq_ties_go_as_the_flips_say() {
    // 2 / (1/4), 4 / (2/4) and 2 / (1/4) are all 8
    let mut wfq = WFQScheduler::new(1);
    let mut a = VariableLengthFlow::new();
    a.packet_arrive(Packet::new("a", 2), 0);
    let mut b = VariableLengthFlow::new();
    b.packet_arrive(Packet::new("b", 4), 0);
    let mut c = VariableLengthFlow::new();
    c.packet_arrive(Packet::new("c", 2), 0);
    wfq.add_flow(a, 1);
    wfq.add_flow(b, 2);
    wfq.add_flow(c, 1);

    assert_eq!(wfq.schedule_with(&vec![false, false, false]), Some(0));
    assert_eq!(wfq.schedule_with(&vec![true, false, false]), Some(0));
    assert_eq!(wfq.schedule_with(&vec![false, true, false]), Some(1));
    assert_eq!(wfq.schedule_with(&vec![false, false, true]), Some(2));
    assert_eq!(wfq.schedule_with(&vec![false, true, true]), Some(2));
}

#[test]
fn wfq_picks_nothing_before_anything_has_arrived() {
    let mut wfq = WFQScheduler::new(1);
    let mut a = VariableLengthFlow::new();
    a.packet_arrive(Packet::new("a", 2), 2);
    wfq.add_flow(a, 1);
    assert_eq!(wfq.schedule(), None);
    assert_eq!(wfq.schedule_with(&vec![true]), None);
    assert!(wfq.tick());
    assert_eq!(wfq.timer(), 1);
    assert!(wfq.departures().is_empty());
    wfq.run();
    assert_eq!(wfq.timer(), 3);
    assert_eq!(wfq.departures(), &vec![(0, 2)]);
}

#[test]
fn wfq_submits_to_a_busy_port() {
    let mut wfq = WFQScheduler::new(1);
    let mut a = VariableLengthFlow::new();
    a.packet_arrive(Packet::new("a1", 5), 0);
    a.packet_arrive(Packet::new("a2", 5), 0);
    wfq.add_flow(a, 1);
    assert!(wfq.tick());
    assert!(!wfq.get_output_port().empty());
    assert!(wfq.tick());
    // the second packet went in while the first was still being sent
    assert_eq!(wfq.get_output_port().get_output().len(), 2);
    assert!(!wfq.get_output_port().empty());
    assert!(!wfq.tick());
    assert_eq!(wfq.timer(), 2);
}

#[test]
fn wfq_step_carries_out_a_given_pick() {
    let mut wfq = WFQScheduler::new(4);
    let mut a = VariableLengthFlow::new();
    a.packet_arrive(Packet::new("a", 6), 0);
    wfq.add_flow(a, 1);
    wfq.step(Some(0));
    assert_eq!(wfq.timer(), 1);
    assert_eq!(wfq.departures(), &vec![(0, 0)]);
    assert!(!wfq.get_output_port().empty());
    let mut other = WFQScheduler::new(4);
    let mut b = VariableLengthFlow::new();
    b.packet_arrive(Packet::new("b", 6), 3);
    other.add_flow(b, 1);
    other.step(None);
    assert_eq!(other.timer(), 1);
    assert!(other.departures().is_empty());
}

#[test]
fn wfq_lets_a_heavy_flow_go_first_while_it_has_packets() {
    // equal lengths, shares 2 : 1: the lighter flow waits until the
    // heavier one is drained
    let mut wfq = WFQScheduler::new(1);
    let mut heavy = VariableLengthFlow::new();
    let mut light = VariableLengthFlow::new();
    for _ in 0..5 {
        heavy.packet_arrive(Packet::new("h", 1), 0);
        light.packet_arrive(Packet::new("l", 1), 0);
    }
    wfq.add_flow(heavy, 2);
    wfq.add_flow(light, 1);
    wfq.run();
    assert_eq!(wfq.timer(), 10);
    let flows: Vec<usize> = wfq.departures().iter().map(|d| d.0).collect();
    assert_eq!(flows, vec![0, 0, 0, 0, 0, 1, 1, 1, 1, 1]);
}
