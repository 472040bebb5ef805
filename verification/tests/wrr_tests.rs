use packet_scheduling::scheduling::flow::{FixedLengthFlow, Flow};
use packet_scheduling::scheduling::schedulers::wrr::WRRScheduler;
use packet_scheduling::scheduling::Packet;

#[test]
fn wrr_test() {
    let mut wrr = WRRScheduler::new(1);

    let mut flow1 = FixedLengthFlow::new(1);
    flow1.add_packet("p1", 0);
    flow1.add_packet("p4", 1);
    flow1.add_packet("p6", 2);
    flow1.add_packet("p8", 4);
    flow1.add_packet("p11", 6);

    let mut flow2 = FixedLengthFlow::new(1);
    flow2.add_packet("p2", 0);
    flow2.add_packet("p5", 1);
    flow2.add_packet("p9", 5);
    flow2.add_packet("p13", 7);

    let mut flow3 = FixedLengthFlow::new(1);
    flow3.add_packet("p3", 0);
    flow3.add_packet("p7", 2);
    flow3.add_packet("p10", 5);
    flow3.add_packet("p12", 6);

    wrr.add_flow(flow1, 2);
    wrr.add_flow(flow2, 1);
    wrr.add_flow(flow3, 1);

    wrr.run();

    assert_eq!(wrr.timer(), 16);

    let output = wrr.get_output_port().get_output();

    assert_eq!(output.len(), 13);
    assert_eq!(
        output,
        &vec![
            Packet::new("p1", 1),
            Packet::new("p4", 1),
            Packet::new("p2", 1),
            Packet::new("p3", 1),
            Packet::new("p6", 1),
            Packet::new("p8", 1),
            Packet::new("p5", 1),
            Packet::new("p7", 1),
            Packet::new("p11", 1),
            Packet::new("p9", 1),
            Packet::new("p10", 1),
            Packet::new("p13", 1),
            Packet::new("p12", 1),
        ]
    );
}

#[test]
fn wrr_passes_over_a_flow_whose_head_has_not_arrived() {
    let mut wrr = WRRScheduler::new(1);
    let mut late = FixedLengthFlow::new(1);
    late.add_packet("late", 3);
    let mut early = FixedLengthFlow::new(1);
    early.add_packet("early", 0);
    wrr.add_flow(late, 1);
    wrr.add_flow(early, 1);

    assert!(wrr.tick());
    assert_eq!(wrr.departures(), &vec![(1, 0)]);
    assert_eq!(wrr.timer(), 1);

    wrr.run();
    // ticks 1 and 2 find nothing to send, tick 3 sends the late packet
    assert_eq!(wrr.timer(), 4);
    assert_eq!(wrr.departures(), &vec![(1, 0), (0, 3)]);
    assert_eq!(
        wrr.get_output_port().get_output(),
        &vec![Packet::new("early", 1), Packet::new("late", 1)]
    );
}

#[test]
fn wrr_schedule_reports_an_exhausted_round() {
    let mut wrr = WRRScheduler::new(1);
    let mut flow = FixedLengthFlow::new(1);
    flow.add_packet("a", 0);
    flow.add_packet("b", 0);
    wrr.add_flow(flow, 1);

    // the only flow spends its quota of one
    assert!(!wrr.schedule());
    assert_eq!(wrr.departures().len(), 1);
    // nothing left to spend: a new round is due and nothing is sent
    assert!(wrr.schedule());
    assert_eq!(wrr.departures().len(), 1);
}

#[test]
fn wrr_run_conserves_and_keeps_arrival_order() {
    let mut wrr = WRRScheduler::new(3);
    let mut a = FixedLengthFlow::new(2);
    a.packet_arrive(Packet::new("a2", 9), 4);
    a.packet_arrive(Packet::new("a1", 9), 1);
    a.packet_arrive(Packet::new("a3", 9), 4);
    let mut b = FixedLengthFlow::new(5);
    b.add_packet("b1", 0);
    b.add_packet("b2", 2);
    wrr.add_flow(a, 2);
    wrr.add_flow(b, 3);
    wrr.run();

    let served = wrr.departures().clone();
    let output = wrr.get_output_port().get_output().clone();
    assert_eq!(served.len(), 5);
    let of_a: Vec<(Packet, usize)> = served
        .iter()
        .zip(output.iter())
        .filter(|(s, _)| s.0 == 0)
        .map(|(s, p)| (*p, s.1))
        .collect();
    let of_b: Vec<(Packet, usize)> = served
        .iter()
        .zip(output.iter())
        .filter(|(s, _)| s.0 == 1)
        .map(|(s, p)| (*p, s.1))
        .collect();
    assert_eq!(
        of_a,
        vec![(Packet::new("a1", 2), 1), (Packet::new("a2", 2), 4), (Packet::new("a3", 2), 4)]
    );
    assert_eq!(of_b, vec![(Packet::new("b1", 5), 0), (Packet::new("b2", 5), 2)]);
    assert!(wrr.get_output_port().empty());
    assert!(!wrr.tick());
}

#[test]
fn wrr_without_flows_ends_at_once() {
    let mut wrr = WRRScheduler::new(1);
    wrr.run();
    assert_eq!(wrr.timer(), 0);
    assert!(wrr.get_output_port().get_output().is_empty());
}
