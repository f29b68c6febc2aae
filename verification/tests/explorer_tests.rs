use blaise::network::{
    Date, Duration, Service, ServiceIdx, Stop, StopIdx, StopTime, Time, Timetable, Transfer, Trip,
    TripIdx, TripPattern, TripPatternIdx,
};
use blaise::raptor::explorer::{
    calculate_transfer_time, explore_transfers, explore_transfers_reverse, explore_trip_patterns,
    explore_trip_patterns_reverse, find_earliest_trip, find_latest_trip, get_arrival_time,
    get_departure_time, merge_buffers,
};
use blaise::raptor::front::ParetoLabel;
use blaise::raptor::query::{QueryLocation, RaptorQuery};
use blaise::raptor::state::State;
use blaise::raptor::{LiveTime, MAX_ROUNDS, Parent, SequnceIdx, Update, Walks, add_cost, add_time, sub_time};
use blaise::spatial::CellSlice;
use blaise::raptor::location::Point;
use blaise::network::Coordinate;

fn st(arr: Option<u32>, dep: Option<u32>) -> StopTime {
    StopTime { arrival_time: arr.map(Time), departure_time: dep.map(Time), distance_traveled: Some(7) }
}

/// One pattern of two stops with four trips; trip 2 runs on another day.
fn network() -> Timetable {
    let trip = |service: u32, a: Option<u32>, b: Option<u32>| Trip {
        service: ServiceIdx(service),
        pattern: TripPatternIdx(0),
        stop_times: vec![st(a, a), st(b, b)],
    };
    Timetable {
        stops: vec![
            Stop { coordinate: None, trip_count: 4, trip_patterns: vec![TripPatternIdx(0)], transfers_out: vec![], transfers_in: vec![] },
            Stop { coordinate: None, trip_count: 4, trip_patterns: vec![TripPatternIdx(0)], transfers_out: vec![], transfers_in: vec![] },
        ],
        trips: vec![
            trip(0, Some(100), Some(200)),
            trip(0, Some(50), Some(150)),
            trip(1, Some(60), Some(90)),
            trip(0, Some(50), None),
        ],
        trip_patterns: vec![TripPattern {
            stops: vec![StopIdx(0), StopIdx(1)],
            trips: vec![TripIdx(0), TripIdx(1), TripIdx(2), TripIdx(3)],
        }],
        services: vec![
            Service { start_date: Date(10), end_date: Date(10), mask_start: 0 },
            Service { start_date: Date(11), end_date: Date(11), mask_start: 1 },
        ],
        active_mask: vec![0b1100_0000],
        transfers: vec![],
    }
}

fn query(date: u32) -> RaptorQuery {
    RaptorQuery::departing_at(QueryLocation::Stop(StopIdx(0)), QueryLocation::Stop(StopIdx(1)), 0, 0).with_date(Date(date))
}

#[test]
fn stop_times_are_read_per_position() {
    let t = network();
    assert!(t.is_well_formed());
    assert_eq!(get_departure_time(&t, TripIdx(0), SequnceIdx(0)), Some(Time(100)));
    assert_eq!(get_arrival_time(&t, TripIdx(0), SequnceIdx(1)), Some(Time(200)));
    assert_eq!(get_arrival_time(&t, TripIdx(3), SequnceIdx(1)), None);
}

#[test]
fn earliest_trip_takes_the_first_of_equal_departures() {
    let t = network();
    // Trips 1 and 3 both leave at 50; trip 1 comes first.
    assert_eq!(find_earliest_trip(&t, &query(10), TripPatternIdx(0), SequnceIdx(0), Time(0)), Some(TripIdx(1)));
    assert_eq!(find_earliest_trip(&t, &query(10), TripPatternIdx(0), SequnceIdx(0), Time(51)), Some(TripIdx(0)));
    assert_eq!(find_earliest_trip(&t, &query(10), TripPatternIdx(0), SequnceIdx(0), Time(101)), None);
    // On day 11 only trip 2 runs.
    assert_eq!(find_earliest_trip(&t, &query(11), TripPatternIdx(0), SequnceIdx(0), Time(0)), Some(TripIdx(2)));
    assert_eq!(find_earliest_trip(&t, &query(12), TripPatternIdx(0), SequnceIdx(0), Time(0)), None);
}

#[test]
fn latest_trip_takes_the_last_of_equal_arrivals() {
    let t = network();
    assert_eq!(find_latest_trip(&t, &query(10), TripPatternIdx(0), SequnceIdx(1), Time(1000)), Some(TripIdx(0)));
    assert_eq!(find_latest_trip(&t, &query(10), TripPatternIdx(0), SequnceIdx(1), Time(199)), Some(TripIdx(1)));
    assert_eq!(find_latest_trip(&t, &query(10), TripPatternIdx(0), SequnceIdx(1), Time(149)), None);
    // Trips 1 and 3 both arrive at stop 0 at 50; trip 3 comes last.
    assert_eq!(find_latest_trip(&t, &query(10), TripPatternIdx(0), SequnceIdx(0), Time(60)), Some(TripIdx(3)));
}

#[test]
fn merge_appends_the_shorter_buffer() {
    assert_eq!(merge_buffers(vec![1, 2, 3], vec![4]), vec![1, 2, 3, 4]);
    assert_eq!(merge_buffers(vec![1], vec![2, 3]), vec![2, 3, 1]);
    assert_eq!(merge_buffers(vec![1, 2], vec![3, 4]), vec![1, 2, 3, 4]);
    assert_eq!(merge_buffers(Vec::<u8>::new(), vec![]), Vec::<u8>::new());
}

#[test]
fn transfer_time_falls_back_to_walking() {
    let x = |min: Option<u32>, walk: Option<u32>| Transfer {
        from_stop: StopIdx(0),
        to_stop: StopIdx(1),
        min_transfer_time: min.map(Duration),
        walk_time: walk.map(Duration),
    };
    assert_eq!(calculate_transfer_time(&x(Some(120), Some(30))), 120);
    assert_eq!(calculate_transfer_time(&x(Some(0), Some(30))), 30);
    assert_eq!(calculate_transfer_time(&x(None, Some(30))), 30);
    assert_eq!(calculate_transfer_time(&x(None, None)), 0);
}

#[test]
fn saturating_arithmetic() {
    assert_eq!(add_time(Time(10), 5), Time(15));
    assert_eq!(add_time(Time(u32::MAX - 1), 5), Time(u32::MAX));
    assert_eq!(sub_time(Time(10), 5), Time(5));
    assert_eq!(sub_time(Time(3), 5), Time(0));
    assert_eq!(add_cost(7, 10, 1500), 15_007);
    assert_eq!(add_cost(u64::MAX - 1, 10, 10), u64::MAX);
}

#[test]
fn delay_is_the_signed_difference() {
    let l = LiveTime { scheduled: Time(100), actual: Time(160) };
    assert_eq!(l.delay().0, 60);
    let l = LiveTime { scheduled: Time(160), actual: Time(100) };
    assert_eq!(l.delay().0, -60);
    let l = LiveTime { scheduled: Time(0), actual: Time(40_000) };
    assert_eq!(l.delay().0, (40_000i64 as i16));
    assert_eq!(LiveTime::scheduled_only(Time(5)), LiveTime { scheduled: Time(5), actual: Time(5) });
}

#[test]
fn new_state_is_sized_for_the_network() {
    let t = network();
    let s = State::new(&t);
    assert_eq!(s.tau_star.len(), 2);
    assert_eq!(s.marked_stops, vec![false, false]);
    assert_eq!(s.active_trip_patterns.len(), 1);
    assert_eq!(s.parents.len(), 2 * MAX_ROUNDS + 1);
    assert!(s.is_valid_for(&t));
    assert_eq!(s.calc_parent_idx(3, StopIdx(1)), 7);
}

#[test]
fn applying_updates_keeps_only_improvements() {
    let t = network();
    let mut s = State::new(&t);
    let walk = |to: u32, time: u32, cost: u64| Update::new(
        StopIdx(to),
        Time(time),
        cost,
        Parent::Walk { from_stop: StopIdx(0), departure_time: LiveTime::scheduled_only(Time(0)), arrival_time: LiveTime::scheduled_only(Time(time)) },
    );
    s.apply_updates(2, false, &vec![walk(1, 100, 10), walk(1, 120, 20), walk(1, 90, 30)]);
    assert_eq!(s.marked_stops, vec![false, true]);
    assert_eq!(s.tau_star[1].iter(), vec![ParetoLabel::new(Time(100), 10), ParetoLabel::new(Time(90), 30)]);
    assert_eq!(s.current_labels[1].iter(), s.tau_star[1].iter());
    assert_eq!(s.parents[s.calc_parent_idx(2, StopIdx(1))], Some(walk(1, 90, 30).parent));
    assert!(s.parents[s.calc_parent_idx(1, StopIdx(1))].is_none());
    assert!(s.is_valid_for(&t));
    // The target's labels dominate later, dearer updates.
    s.target_tau_star.add(ParetoLabel::new(Time(50), 5), false);
    s.apply_updates(3, false, &vec![walk(0, 60, 6)]);
    assert_eq!(s.marked_stops, vec![false, true]);
    assert!(s.tau_star[0].is_empty());
}

#[test]
fn cell_slices_give_buffer_ranges() {
    let c = CellSlice::new(4, 3);
    assert_eq!(c, CellSlice { start: 4, count: 3 });
    assert_eq!(c.range(), 4..7);
}

#[test]
fn points_from_stops_and_coordinates() {
    assert_eq!(Point::from(7u32), Point::Stop(7));
    let c = Coordinate { latitude: 1, longitude: 2 };
    assert_eq!(Point::from(c), Point::Coordinate(c));
}

#[test]
fn sequence_index_sentinel() {
    assert_eq!(SequnceIdx::none(), SequnceIdx(u32::MAX));
    assert_eq!(SequnceIdx(5).as_usize(), 5);
    assert_eq!(StopIdx(3).as_usize(), 3);
}

fn ride(stop: u32, time: u32, cost: u64, trip: u32, dep: u32, arr: u32) -> Update {
    Update::new(
        StopIdx(stop),
        Time(time),
        cost,
        Parent::Transit {
            boarding_p: SequnceIdx(0),
            alighting_p: SequnceIdx(1),
            trip: TripIdx(trip),
            departure_time: LiveTime::scheduled_only(Time(dep)),
            arrival_time: LiveTime::scheduled_only(Time(arr)),
        },
    )
}

#[test]
fn forward_ride_costs_the_wait_and_the_ride() {
    let t = network();
    let q = query(10);
    let mut s = State::new(&t);
    s.previous_labels[0].add(ParetoLabel::new(Time(40), 5), false);
    s.active_trip_patterns[0] = Some(SequnceIdx(0));
    let updates = explore_trip_patterns(&q, &t, &mut s);
    // Trip 1 is the first trip leaving at 50: ten seconds of waiting and a
    // hundred of riding, each counted once.
    assert_eq!(updates, vec![ride(1, 150, 5 + 10_000 + 100_000, 1, 50, 150)]);
}

#[test]
fn backward_ride_costs_the_wait_and_the_ride() {
    let t = network();
    let q = query(10);
    let mut s = State::new(&t);
    s.previous_labels[1].add(ParetoLabel::new(Time(160), 7), true);
    s.active_trip_patterns[0] = Some(SequnceIdx(1));
    let updates = explore_trip_patterns_reverse(&q, &t, &mut s);
    // Trip 1 is the last to arrive by 160 (at 150), boarded at 50.
    assert_eq!(updates, vec![ride(0, 50, 7 + 10_000 + 100_000, 1, 50, 150)]);
}

#[test]
fn rides_dominated_at_their_stop_are_not_offered() {
    let t = network();
    let q = query(10);
    let mut s = State::new(&t);
    s.previous_labels[0].add(ParetoLabel::new(Time(40), 5), false);
    s.active_trip_patterns[0] = Some(SequnceIdx(0));
    s.tau_star[1].add(ParetoLabel::new(Time(150), 5), false);
    assert!(explore_trip_patterns(&q, &t, &mut s).is_empty());
}

/// Stop 0 with transfers to stops 1 and 2, a coordinate, and a walk to stop 2.
fn hub() -> (Timetable, Walks) {
    let stop = |coordinate: Option<Coordinate>, out: Vec<usize>, inn: Vec<usize>| Stop {
        coordinate,
        trip_count: 1,
        trip_patterns: vec![],
        transfers_out: out,
        transfers_in: inn,
    };
    let t = Timetable {
        stops: vec![
            stop(Some(Coordinate { latitude: 0, longitude: 0 }), vec![0, 1], vec![]),
            stop(None, vec![], vec![0]),
            stop(Some(Coordinate { latitude: 1, longitude: 1 }), vec![], vec![1]),
        ],
        trips: vec![],
        trip_patterns: vec![],
        services: vec![],
        active_mask: vec![],
        transfers: vec![
            Transfer { from_stop: StopIdx(0), to_stop: StopIdx(1), min_transfer_time: Some(Duration(30)), walk_time: None },
            Transfer { from_stop: StopIdx(0), to_stop: StopIdx(2), min_transfer_time: Some(Duration(60)), walk_time: None },
        ],
    };
    let walks = Walks {
        by_stop: vec![vec![(StopIdx(2), Duration(20))], vec![], vec![(StopIdx(0), Duration(20))]],
        origin: vec![],
        destination: vec![],
    };
    (t, walks)
}

fn hop(to: u32, time: u32, cost: u64, from: u32, dep: u32, arr: u32, walk: bool) -> Update {
    let (departure_time, arrival_time) = (LiveTime::scheduled_only(Time(dep)), LiveTime::scheduled_only(Time(arr)));
    let parent = if walk {
        Parent::Walk { from_stop: StopIdx(from), departure_time, arrival_time }
    } else {
        Parent::Transfer { from_stop: StopIdx(from), departure_time, arrival_time }
    };
    Update::new(StopIdx(to), Time(time), cost, parent)
}

#[test]
fn every_transfer_and_walk_of_a_marked_stop_is_offered() {
    let (t, walks) = hub();
    assert!(t.is_well_formed());
    assert!(walks.is_valid(&t));
    let q = query(10);
    let mut s = State::new(&t);
    s.marked_stops[0] = true;
    s.current_labels[0].add(ParetoLabel::new(Time(100), 0), false);
    let updates = explore_transfers(&q, &t, &walks, &mut s);
    assert_eq!(
        updates,
        vec![
            hop(1, 130, 45_000, 0, 100, 130, false),
            hop(2, 160, 90_000, 0, 100, 160, false),
            hop(2, 120, 40_000, 0, 100, 120, true),
        ]
    );
    // Unmarked stops offer nothing.
    s.marked_stops[0] = false;
    assert!(explore_transfers(&q, &t, &walks, &mut s).is_empty());
}

#[test]
fn hops_dominated_at_their_stop_are_left_out() {
    let (t, walks) = hub();
    let q = query(10);
    let mut s = State::new(&t);
    s.marked_stops[0] = true;
    s.current_labels[0].add(ParetoLabel::new(Time(100), 0), false);
    s.tau_star[2].add(ParetoLabel::new(Time(110), 0), false);
    let updates = explore_transfers(&q, &t, &walks, &mut s);
    assert_eq!(updates, vec![hop(1, 130, 45_000, 0, 100, 130, false)]);
}

#[test]
fn backward_hops_lead_into_a_marked_stop() {
    let (t, walks) = hub();
    let q = query(10);
    let mut s = State::new(&t);
    s.marked_stops[2] = true;
    s.current_labels[2].add(ParetoLabel::new(Time(100), 0), true);
    let updates = explore_transfers_reverse(&q, &t, &walks, &mut s);
    assert_eq!(
        updates,
        vec![
            hop(0, 40, 90_000, 2, 40, 100, false),
            hop(0, 80, 40_000, 2, 80, 100, true),
        ]
    );
    // A label too early for the transfer offers only the walk.
    let mut s = State::new(&t);
    s.marked_stops[2] = true;
    s.current_labels[2].add(ParetoLabel::new(Time(50), 0), true);
    let updates = explore_transfers_reverse(&q, &t, &walks, &mut s);
    assert_eq!(updates, vec![hop(0, 30, 40_000, 2, 30, 50, true)]);
}
