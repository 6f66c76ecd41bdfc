use intersection_sim::{
    AgentID, Command, Control, ControlStopSign, ControlTrafficSignal, Cycle, Intersection,
    IntersectionID, IntersectionSimState, LaneID, Request, RoadMap, Scheduler, Turn, TurnID,
    TurnPriority, WAIT_AT_STOP_SIGN,
};

fn turn(i: usize, src: usize, dst: usize) -> TurnID {
    TurnID { parent: IntersectionID(i), src: LaneID(src), dst: LaneID(dst) }
}

fn car(n: u64) -> AgentID {
    AgentID::Car(n)
}

fn one_intersection(control: Control, turns: Vec<Turn>, conflicts: Vec<(TurnID, TurnID)>) -> RoadMap {
    RoadMap {
        intersections: vec![Intersection { id: IntersectionID(0), control }],
        turns,
        conflicts,
    }
}

fn stop_sign_map(a: TurnID, pa: TurnPriority, b: TurnID, pb: TurnPriority) -> RoadMap {
    one_intersection(
        Control::StopSign(ControlStopSign { turns: vec![(a, pa), (b, pb)] }),
        vec![Turn { id: a, length: 10_000 }, Turn { id: b, length: 12_000 }],
        vec![(a, b)],
    )
}

fn signal_map(cycles: Vec<Cycle>, turns: Vec<Turn>, conflicts: Vec<(TurnID, TurnID)>) -> RoadMap {
    one_intersection(
        Control::TrafficSignal(ControlTrafficSignal { cycles }),
        turns,
        conflicts,
    )
}

#[test]
fn four_way_stop_scenario() {
    let a = turn(0, 1, 2);
    let b = turn(0, 3, 2);
    let map = stop_sign_map(a, TurnPriority::Stop, b, TurnPriority::Stop);
    let mut sched = Scheduler::new();
    let mut sim = IntersectionSimState::new(&map, &mut sched);
    assert!(sched.events().is_empty());

    assert!(!sim.maybe_start_turn(car(1), a, 5_000, 0, &map, &mut sched));
    assert!(!sim.maybe_start_turn(car(2), b, 5_000, 0, &map, &mut sched));
    assert_eq!(
        sched.events().clone(),
        vec![(500, Command::UpdateAgent(car(1))), (500, Command::UpdateAgent(car(2)))]
    );

    assert!(sim.maybe_start_turn(car(1), a, 5_000, 500, &map, &mut sched));
    assert!(!sim.maybe_start_turn(car(2), b, 5_000, 500, &map, &mut sched));
    assert_eq!(sim.get_accepted_agents(IntersectionID(0)), vec![car(1)]);

    sim.turn_finished(3_000, car(1), a, &map, &mut sched);
    assert!(sched.events().contains(&(3_000, Command::UpdateAgent(car(2)))));
    assert!(sim.maybe_start_turn(car(2), b, 5_000, 3_000, &map, &mut sched));
    assert_eq!(sim.get_accepted_agents(IntersectionID(0)), vec![car(2)]);
}

#[test]
fn signal_feasibility_scenario() {
    let t = turn(0, 1, 2);
    let map = signal_map(
        vec![Cycle { priority_turns: vec![t], yield_turns: vec![], duration: 10_000 }],
        vec![Turn { id: t, length: 20_000 }],
        vec![],
    );
    let mut sched = Scheduler::new();
    let mut sim = IntersectionSimState::new(&map, &mut sched);
    assert_eq!(sched.events().clone(), vec![(10_000, Command::UpdateIntersection(IntersectionID(0)))]);
    assert!(!sim.maybe_start_turn(car(2), t, 1_000, 0, &map, &mut sched));
    assert!(sim.maybe_start_turn(car(1), t, 5_000, 0, &map, &mut sched));
}

#[test]
fn signal_crossing_exactly_fits() {
    let t = turn(0, 1, 2);
    let map = signal_map(
        vec![Cycle { priority_turns: vec![t], yield_turns: vec![], duration: 10_000 }],
        vec![Turn { id: t, length: 20_000 }],
        vec![],
    );
    let mut sched = Scheduler::new();
    let mut sim = IntersectionSimState::new(&map, &mut sched);
    // 20 m at 2 m/s takes 10 s, exactly what is left.
    assert!(sim.maybe_start_turn(car(1), t, 2_000, 0, &map, &mut sched));
    // 20 m at 2 m/s with 9.999 s left does not fit.
    assert!(!sim.maybe_start_turn(car(2), t, 2_000, 1, &map, &mut sched));
}

#[test]
fn stop_sign_dwell() {
    let a = turn(0, 1, 2);
    let b = turn(0, 3, 4);
    let map = stop_sign_map(a, TurnPriority::Stop, b, TurnPriority::Stop);
    let mut sched = Scheduler::new();
    let mut sim = IntersectionSimState::new(&map, &mut sched);
    assert!(!sim.maybe_start_turn(car(1), a, 1_000, 100, &map, &mut sched));
    assert!(!sim.maybe_start_turn(car(1), a, 1_000, 599, &map, &mut sched));
    assert_eq!(sched.events()[0], (100 + WAIT_AT_STOP_SIGN, Command::UpdateAgent(car(1))));
    assert!(sim.maybe_start_turn(car(1), a, 1_000, 600, &map, &mut sched));
}

#[test]
fn stop_sign_first_come_first_served() {
    let a = turn(0, 1, 2);
    let b = turn(0, 3, 2);
    let map = stop_sign_map(a, TurnPriority::Stop, b, TurnPriority::Stop);
    let mut sched = Scheduler::new();
    let mut sim = IntersectionSimState::new(&map, &mut sched);
    // The later agent number asks first, so the order of requests does not decide.
    assert!(!sim.maybe_start_turn(car(9), b, 1_000, 0, &map, &mut sched));
    assert!(!sim.maybe_start_turn(car(1), a, 1_000, 200, &map, &mut sched));
    assert!(!sim.maybe_start_turn(car(1), a, 1_000, 1_000, &map, &mut sched));
    assert!(sim.maybe_start_turn(car(9), b, 1_000, 1_000, &map, &mut sched));
}

#[test]
fn stop_sign_priority_beats_earlier_stop() {
    let a = turn(0, 1, 2);
    let b = turn(0, 3, 2);
    let c = turn(0, 5, 6);
    let map = one_intersection(
        Control::StopSign(ControlStopSign {
            turns: vec![(a, TurnPriority::Stop), (b, TurnPriority::Priority), (c, TurnPriority::Priority)],
        }),
        vec![
            Turn { id: a, length: 10_000 },
            Turn { id: b, length: 10_000 },
            Turn { id: c, length: 10_000 },
        ],
        vec![(a, b), (b, c)],
    );
    let mut sched = Scheduler::new();
    let mut sim = IntersectionSimState::new(&map, &mut sched);
    assert!(!sim.maybe_start_turn(car(1), a, 1_000, 0, &map, &mut sched));
    assert!(sim.maybe_start_turn(car(3), c, 1_000, 50, &map, &mut sched));
    assert!(!sim.maybe_start_turn(car(2), b, 1_000, 60, &map, &mut sched));
    sim.turn_finished(100, car(3), c, &map, &mut sched);
    // b is ready and outranks a, though a asked first.
    assert!(!sim.maybe_start_turn(car(1), a, 1_000, 600, &map, &mut sched));
    assert!(sim.maybe_start_turn(car(2), b, 1_000, 600, &map, &mut sched));
    assert!(!sim.maybe_start_turn(car(1), a, 1_000, 700, &map, &mut sched));
}

#[test]
fn stop_sign_ready_priority_competitor_blocks_stop() {
    let a = turn(0, 1, 2);
    let b = turn(0, 3, 2);
    let c = turn(0, 5, 6);
    let map = one_intersection(
        Control::StopSign(ControlStopSign {
            turns: vec![(a, TurnPriority::Stop), (b, TurnPriority::Priority), (c, TurnPriority::Priority)],
        }),
        vec![
            Turn { id: a, length: 10_000 },
            Turn { id: b, length: 10_000 },
            Turn { id: c, length: 10_000 },
        ],
        vec![(a, b), (b, c)],
    );
    let mut sched = Scheduler::new();
    let mut sim = IntersectionSimState::new(&map, &mut sched);
    // c is in progress, so b waits; b is then not ready and does not hold a back.
    assert!(sim.maybe_start_turn(car(3), c, 1_000, 0, &map, &mut sched));
    assert!(!sim.maybe_start_turn(car(2), b, 1_000, 0, &map, &mut sched));
    assert!(!sim.maybe_start_turn(car(1), a, 1_000, 0, &map, &mut sched));
    assert!(sim.maybe_start_turn(car(1), a, 1_000, 500, &map, &mut sched));
}

#[test]
fn signal_yield_preempted_by_waiting_priority() {
    let p = turn(0, 1, 2);
    let y = turn(0, 3, 2);
    let map = signal_map(
        vec![Cycle { priority_turns: vec![p], yield_turns: vec![y], duration: 30_000 }],
        vec![Turn { id: p, length: 10_000 }, Turn { id: y, length: 10_000 }],
        vec![(p, y)],
    );
    let mut sched = Scheduler::new();
    let mut sim = IntersectionSimState::new(&map, &mut sched);
    // The priority movement waits, blocked by nothing here but a zero speed.
    assert!(!sim.maybe_start_turn(car(1), p, 0, 0, &map, &mut sched));
    assert!(!sim.maybe_start_turn(car(2), y, 10_000, 5, &map, &mut sched));
    assert!(sim.maybe_start_turn(car(1), p, 10_000, 10, &map, &mut sched));
}

#[test]
fn signal_banned_turn_denied() {
    let p = turn(0, 1, 2);
    let other = turn(0, 3, 4);
    let map = signal_map(
        vec![Cycle { priority_turns: vec![p], yield_turns: vec![], duration: 30_000 }],
        vec![Turn { id: p, length: 10_000 }, Turn { id: other, length: 10_000 }],
        vec![],
    );
    let mut sched = Scheduler::new();
    let mut sim = IntersectionSimState::new(&map, &mut sched);
    assert!(!sim.maybe_start_turn(car(1), other, 10_000, 0, &map, &mut sched));
}

#[test]
fn signal_cycles_and_reevaluation() {
    let t = turn(0, 1, 2);
    let signal = ControlTrafficSignal {
        cycles: vec![
            Cycle { priority_turns: vec![], yield_turns: vec![], duration: 10_000 },
            Cycle { priority_turns: vec![t], yield_turns: vec![], duration: 5_000 },
        ],
    };
    let (idx, _, left) = signal.current_cycle_and_remaining_time(12_000);
    assert_eq!((idx, left), (1, 3_000));
    let (idx, _, left) = signal.current_cycle_and_remaining_time(15_000);
    assert_eq!((idx, left), (0, 10_000));
    let (idx, _, left) = signal.current_cycle_and_remaining_time(24_999);
    assert_eq!((idx, left), (0, 1));
    assert_eq!(signal.cycle_length(), 15_000);

    let map = signal_map(signal.cycles.clone(), vec![Turn { id: t, length: 1_000 }], vec![]);
    let mut sched = Scheduler::new();
    let mut sim = IntersectionSimState::new(&map, &mut sched);
    assert!(!sim.maybe_start_turn(car(4), t, 1_000, 2_000, &map, &mut sched));
    sim.update_intersection(10_000, IntersectionID(0), &map, &mut sched);
    assert_eq!(
        sched.events().clone(),
        vec![
            (10_000, Command::UpdateIntersection(IntersectionID(0))),
            (10_000, Command::UpdateAgent(car(4))),
            (15_000, Command::UpdateIntersection(IntersectionID(0))),
        ]
    );
    assert!(sim.maybe_start_turn(car(4), t, 1_000, 10_000, &map, &mut sched));
}

#[test]
fn freeform_independent_turns() {
    let a = turn(0, 1, 2);
    let b = turn(0, 3, 4);
    let c = turn(0, 5, 2);
    let map = one_intersection(
        Control::Freeform,
        vec![Turn { id: a, length: 1 }, Turn { id: b, length: 1 }, Turn { id: c, length: 1 }],
        vec![(a, c)],
    );
    for order in [[0usize, 1], [1, 0]] {
        let mut sched = Scheduler::new();
        let mut sim = IntersectionSimState::new(&map, &mut sched);
        let reqs = [(car(1), a), (car(2), b)];
        for k in order {
            assert!(sim.maybe_start_turn(reqs[k].0, reqs[k].1, 1, 0, &map, &mut sched));
        }
        assert!(!sim.maybe_start_turn(car(3), c, 1, 0, &map, &mut sched));
        assert!(sched.events().is_empty());
    }
}

#[test]
fn nobody_headed_towards_lane() {
    let a = turn(0, 1, 2);
    let map = one_intersection(Control::Freeform, vec![Turn { id: a, length: 1 }], vec![]);
    let mut sched = Scheduler::new();
    let mut sim = IntersectionSimState::new(&map, &mut sched);
    assert!(sim.nobody_headed_towards(LaneID(2), IntersectionID(0)));
    assert!(sim.maybe_start_turn(car(1), a, 1, 0, &map, &mut sched));
    assert!(!sim.nobody_headed_towards(LaneID(2), IntersectionID(0)));
    assert!(sim.nobody_headed_towards(LaneID(1), IntersectionID(0)));
    sim.turn_finished(5, car(1), a, &map, &mut sched);
    assert!(sim.nobody_headed_towards(LaneID(2), IntersectionID(0)));
}

#[test]
fn accepted_agents_once_each() {
    let a = turn(0, 1, 2);
    let b = turn(0, 3, 4);
    let map = one_intersection(
        Control::Freeform,
        vec![Turn { id: a, length: 1 }, Turn { id: b, length: 1 }],
        vec![],
    );
    let mut sched = Scheduler::new();
    let mut sim = IntersectionSimState::new(&map, &mut sched);
    assert!(sim.get_accepted_agents(IntersectionID(0)).is_empty());
    assert!(sim.maybe_start_turn(AgentID::Pedestrian(1), a, 1, 0, &map, &mut sched));
    assert!(sim.maybe_start_turn(AgentID::Pedestrian(1), b, 1, 0, &map, &mut sched));
    assert!(sim.maybe_start_turn(car(7), a, 1, 0, &map, &mut sched));
    assert_eq!(
        sim.get_accepted_agents(IntersectionID(0)),
        vec![car(7), AgentID::Pedestrian(1)]
    );
    let st = sim.debug(IntersectionID(0));
    assert_eq!(st.accepted().len(), 3);
    assert!(st.waiting().is_empty());
}

#[test]
fn waiting_keeps_first_timestamp_and_order() {
    let a = turn(0, 1, 2);
    let b = turn(0, 3, 2);
    let map = stop_sign_map(a, TurnPriority::Priority, b, TurnPriority::Stop);
    let mut sched = Scheduler::new();
    let mut sim = IntersectionSimState::new(&map, &mut sched);
    assert!(sim.maybe_start_turn(car(5), a, 1, 0, &map, &mut sched));
    assert!(!sim.maybe_start_turn(car(3), b, 1, 10, &map, &mut sched));
    assert!(!sim.maybe_start_turn(car(2), b, 1, 20, &map, &mut sched));
    assert!(!sim.maybe_start_turn(car(3), b, 1, 900, &map, &mut sched));
    let st = sim.debug(IntersectionID(0));
    assert_eq!(st.waiting().clone(), vec![
        (Request { agent: car(2), turn: b }, 20),
        (Request { agent: car(3), turn: b }, 10),
    ]);
    let before = sched.events().len();
    sim.turn_finished(1_000, car(5), a, &map, &mut sched);
    let events = sched.events().clone();
    assert_eq!(events.len(), before + 2);
    assert!(events.contains(&(1_000, Command::UpdateAgent(car(2)))));
    assert!(events.contains(&(1_000, Command::UpdateAgent(car(3)))));
}

#[test]
fn scheduler_update_moves_pending_event() {
    let mut sched = Scheduler::new();
    sched.push(5, Command::UpdateAgent(car(1)));
    sched.push(6, Command::UpdateAgent(car(2)));
    sched.update(9, Command::UpdateAgent(car(1)));
    assert_eq!(
        sched.events().clone(),
        vec![(9, Command::UpdateAgent(car(1))), (6, Command::UpdateAgent(car(2)))]
    );
    sched.update(9, Command::UpdateAgent(car(3)));
    assert_eq!(sched.events().len(), 3);
    sched.push(1, Command::UpdateAgent(car(3)));
    assert_eq!(sched.events().len(), 4);
}

#[test]
fn request_order() {
    let t1 = turn(0, 1, 2);
    let t2 = turn(0, 1, 3);
    let r = |a: AgentID, t: TurnID| Request { agent: a, turn: t };
    assert!(r(car(1), t2).precedes(&r(car(2), t1)));
    assert!(r(car(1), t1).precedes(&r(car(1), t2)));
    assert!(r(car(9), t1).precedes(&r(AgentID::Pedestrian(0), t1)));
    assert!(!r(car(1), t1).precedes(&r(car(1), t1)));
}

#[test]
fn turn_lookups() {
    let a = turn(0, 1, 2);
    let b = turn(0, 3, 2);
    let map = stop_sign_map(a, TurnPriority::Stop, b, TurnPriority::Priority);
    assert!(map.turns_conflict(b, a));
    assert!(!map.turns_conflict(a, a));
    assert_eq!(map.get_turn_length(b), 12_000);
    if let Control::StopSign(sign) = map.control(IntersectionID(0)) {
        assert_eq!(sign.get_priority(b), TurnPriority::Priority);
        assert_eq!(sign.get_priority(turn(0, 9, 9)), TurnPriority::Banned);
    } else {
        panic!("expected a stop sign");
    }
}
