use blaise::network::{
    Coordinate, Date, Duration, Service, ServiceIdx, Stop, StopIdx, StopTime, Time, Timetable,
    Transfer, Trip, TripIdx, TripPattern, TripPatternIdx,
};
use blaise::raptor::itinerary::{Itinerary, LegType};
use blaise::raptor::query::{Location, QueryLocation, RaptorQuery, TimeDirection};
use blaise::raptor::state::State;
use blaise::raptor::{LiveTime, Parent, Walks, solve};
use blaise::Error;

fn st(arr: u32, dep: u32) -> StopTime {
    StopTime { arrival_time: Some(Time(arr)), departure_time: Some(Time(dep)), distance_traveled: None }
}

fn stop(patterns: Vec<u32>, trips: usize) -> Stop {
    Stop {
        coordinate: None,
        trip_count: trips,
        trip_patterns: patterns.into_iter().map(TripPatternIdx).collect(),
        transfers_out: Vec::new(),
        transfers_in: Vec::new(),
    }
}

/// Stops A, B, C on one pattern with two trips (08:00 and 08:30 from A,
/// ten minutes between stops), running on day 100; stop D without trips.
fn line() -> Timetable {
    Timetable {
        stops: vec![stop(vec![0], 2), stop(vec![0], 2), stop(vec![0], 2), stop(vec![], 0)],
        trips: vec![
            Trip {
                service: ServiceIdx(0),
                pattern: TripPatternIdx(0),
                stop_times: vec![st(28800, 28800), st(29400, 29400), st(30000, 30000)],
            },
            Trip {
                service: ServiceIdx(0),
                pattern: TripPatternIdx(0),
                stop_times: vec![st(30600, 30600), st(31200, 31200), st(31800, 31800)],
            },
        ],
        trip_patterns: vec![TripPattern {
            stops: vec![StopIdx(0), StopIdx(1), StopIdx(2)],
            trips: vec![TripIdx(0), TripIdx(1)],
        }],
        services: vec![Service { start_date: Date(100), end_date: Date(100), mask_start: 0 }],
        active_mask: vec![0b1000_0000],
        transfers: Vec::new(),
    }
}

fn no_walks(t: &Timetable) -> Walks {
    Walks { by_stop: t.stops.iter().map(|_| Vec::new()).collect(), origin: Vec::new(), destination: Vec::new() }
}

fn departure_query(from: u32, to: u32, time: u32) -> RaptorQuery {
    RaptorQuery::departing_at(QueryLocation::Stop(StopIdx(from)), QueryLocation::Stop(StopIdx(to)), 0, 0)
        .with_departure(Time(time))
        .with_date(Date(100))
}

#[test]
fn line_is_well_formed() {
    let t = line();
    assert!(t.is_well_formed());
    assert!(no_walks(&t).is_valid(&t));
}

#[test]
fn broken_networks_are_rejected() {
    let mut t = line();
    t.trips[0].stop_times.pop();
    assert!(!t.is_well_formed());
    let mut t = line();
    t.trip_patterns[0].stops[1] = StopIdx(9);
    assert!(!t.is_well_formed());
    let mut t = line();
    t.services[0].mask_start = 8;
    assert!(!t.is_well_formed());
    let mut t = line();
    t.transfers.push(Transfer { from_stop: StopIdx(0), to_stop: StopIdx(7), min_transfer_time: None, walk_time: None });
    assert!(!t.is_well_formed());
}

#[test]
fn service_days_follow_the_mask() {
    let mut t = line();
    t.services[0] = Service { start_date: Date(100), end_date: Date(110), mask_start: 3 };
    // Bits 3.. of 0b0001_0100, 0b1000_0000: day 100 -> bit 3 (set), 101 -> bit 4 (clear),
    // 102 -> bit 5 (set), 105 -> bit 8 (set), 106 -> bit 9 (clear).
    t.active_mask = vec![0b0001_0100, 0b1000_0000];
    assert!(t.is_well_formed());
    assert!(t.is_service_active(ServiceIdx(0), Date(100)));
    assert!(!t.is_service_active(ServiceIdx(0), Date(101)));
    assert!(t.is_service_active(ServiceIdx(0), Date(102)));
    assert!(t.is_service_active(ServiceIdx(0), Date(105)));
    assert!(!t.is_service_active(ServiceIdx(0), Date(106)));
    assert!(!t.is_service_active(ServiceIdx(0), Date(99)));
    assert!(!t.is_service_active(ServiceIdx(0), Date(111)));
}

#[test]
fn forward_search_rides_the_first_trip() {
    let t = line();
    let walks = no_walks(&t);
    let mut state = State::new(&t);
    let it = solve(departure_query(0, 2, 28500), &t, &walks, &mut state).unwrap();
    assert_eq!(it.from, Location::Stop(StopIdx(0)));
    assert_eq!(it.to, Location::Stop(StopIdx(2)));
    assert_eq!(it.legs.len(), 1);
    let leg = &it.legs[0];
    assert_eq!(leg.leg_type, LegType::Transit(TripIdx(0)));
    assert_eq!(leg.from, Location::Stop(StopIdx(0)));
    assert_eq!(leg.to, Location::Stop(StopIdx(2)));
    assert_eq!(leg.departure_time, LiveTime::scheduled_only(Time(28800)));
    assert_eq!(leg.arrival_time, LiveTime::scheduled_only(Time(30000)));
    assert_eq!(leg.stops.len(), 3);
    assert_eq!(leg.stops[1].location, Location::Stop(StopIdx(1)));
    assert_eq!(leg.stops[1].arrival_time, LiveTime::scheduled_only(Time(29400)));
    assert!(state.is_valid_for(&t));
}

#[test]
fn forward_search_waits_for_the_next_trip() {
    let t = line();
    let walks = no_walks(&t);
    let mut state = State::new(&t);
    let it = solve(departure_query(1, 2, 29500), &t, &walks, &mut state).unwrap();
    assert_eq!(it.legs.len(), 1);
    assert_eq!(it.legs[0].leg_type, LegType::Transit(TripIdx(1)));
    assert_eq!(it.legs[0].departure_time.scheduled, Time(31200));
    assert_eq!(it.legs[0].arrival_time.scheduled, Time(31800));
    assert_eq!(it.legs[0].stops.len(), 2);
}

#[test]
fn no_route_against_the_direction_of_travel() {
    let t = line();
    let walks = no_walks(&t);
    let mut state = State::new(&t);
    let r = solve(departure_query(2, 0, 28000), &t, &walks, &mut state);
    assert!(matches!(r, Err(Error::NoRoute)));
}

#[test]
fn no_route_after_the_last_trip() {
    let t = line();
    let walks = no_walks(&t);
    let mut state = State::new(&t);
    let r = solve(departure_query(0, 2, 31000), &t, &walks, &mut state);
    assert!(matches!(r, Err(Error::NoRoute)));
}

#[test]
fn no_route_on_a_day_without_service() {
    let t = line();
    let walks = no_walks(&t);
    let mut state = State::new(&t);
    let q = departure_query(0, 2, 28000).with_date(Date(101));
    assert!(matches!(solve(q, &t, &walks, &mut state), Err(Error::NoRoute)));
}

#[test]
fn arrival_search_finds_the_latest_trip_then_departs_with_it() {
    let t = line();
    let walks = no_walks(&t);
    let mut state = State::new(&t);
    let q = departure_query(0, 2, 0).with_arrival(Time(31000));
    let it = solve(q, &t, &walks, &mut state).unwrap();
    assert_eq!(it.legs.len(), 1);
    assert_eq!(it.legs[0].leg_type, LegType::Transit(TripIdx(0)));
    assert_eq!(it.legs[0].departure_time.scheduled, Time(28800));
    assert_eq!(it.legs[0].arrival_time.scheduled, Time(30000));
    assert_eq!(it.from, Location::Stop(StopIdx(0)));
    assert_eq!(it.to, Location::Stop(StopIdx(2)));
}

#[test]
fn arrival_search_before_any_trip_has_no_route() {
    let t = line();
    let walks = no_walks(&t);
    let mut state = State::new(&t);
    let q = departure_query(0, 2, 0).with_arrival(Time(29000));
    assert!(matches!(solve(q, &t, &walks, &mut state), Err(Error::NoRoute)));
}

#[test]
fn coordinate_origin_adds_a_walk_in_front() {
    let t = line();
    let mut walks = no_walks(&t);
    let here = Coordinate { latitude: 593_700_000, longitude: 180_000_000 };
    walks.origin = vec![(StopIdx(0), Duration(120)), (StopIdx(3), Duration(10))];
    let q = RaptorQuery::departing_at(QueryLocation::Coordinate(here), QueryLocation::Stop(StopIdx(2)), 0, 0)
        .with_departure(Time(28500))
        .with_date(Date(100));
    assert!(q.is_valid_for(&t));
    let mut state = State::new(&t);
    let it = solve(q, &t, &walks, &mut state).unwrap();
    assert_eq!(it.from, Location::Coordinate(here));
    assert_eq!(it.legs.len(), 2);
    assert_eq!(it.legs[0].leg_type, LegType::Walk);
    assert_eq!(it.legs[0].from, Location::Coordinate(here));
    assert_eq!(it.legs[0].to, Location::Stop(StopIdx(0)));
    assert_eq!(it.legs[0].departure_time.scheduled, Time(28500));
    assert_eq!(it.legs[0].arrival_time.scheduled, Time(28620));
    assert_eq!(it.legs[1].leg_type, LegType::Transit(TripIdx(0)));
    assert_eq!(it.legs[0].to, it.legs[1].from);
}

#[test]
fn transfer_to_a_second_line() {
    // Stop C (2) transfers to stop E (4) in 60 s; line E -> F departs 08:25.
    let mut t = line();
    t.stops.push(stop(vec![1], 1));
    t.stops.push(stop(vec![1], 1));
    t.trips.push(Trip {
        service: ServiceIdx(0),
        pattern: TripPatternIdx(1),
        stop_times: vec![st(30300, 30300), st(31000, 31000)],
    });
    t.trip_patterns.push(TripPattern { stops: vec![StopIdx(4), StopIdx(5)], trips: vec![TripIdx(2)] });
    t.transfers.push(Transfer {
        from_stop: StopIdx(2),
        to_stop: StopIdx(4),
        min_transfer_time: Some(Duration(60)),
        walk_time: None,
    });
    t.stops[2].transfers_out.push(0);
    t.stops[4].transfers_in.push(0);
    assert!(t.is_well_formed());
    let walks = no_walks(&t);
    let mut state = State::new(&t);
    let it = solve(departure_query(0, 5, 28500), &t, &walks, &mut state).unwrap();
    assert_eq!(it.legs.len(), 3);
    assert_eq!(it.legs[0].leg_type, LegType::Transit(TripIdx(0)));
    assert_eq!(it.legs[1].leg_type, LegType::Transfer);
    assert_eq!(it.legs[1].from, Location::Stop(StopIdx(2)));
    assert_eq!(it.legs[1].to, Location::Stop(StopIdx(4)));
    assert_eq!(it.legs[1].arrival_time.scheduled, Time(30060));
    assert_eq!(it.legs[2].leg_type, LegType::Transit(TripIdx(2)));
    for k in 0..it.legs.len() - 1 {
        assert_eq!(it.legs[k].to, it.legs[k + 1].from);
    }
}

#[test]
fn consecutive_walks_are_merged() {
    // Walk from A (0) to D (3) and from D's neighbour ... : the origin is a
    // coordinate near A, and A is also reached by a walk from the destination
    // side, so the itinerary is walk-only and merged into one leg.
    let mut t = line();
    t.stops[0].coordinate = Some(Coordinate { latitude: 1, longitude: 1 });
    t.stops[1].coordinate = Some(Coordinate { latitude: 2, longitude: 2 });
    let mut walks = no_walks(&t);
    walks.by_stop[0] = vec![(StopIdx(1), Duration(300))];
    let here = Coordinate { latitude: 0, longitude: 0 };
    walks.origin = vec![(StopIdx(0), Duration(60))];
    let q = RaptorQuery::departing_at(QueryLocation::Coordinate(here), QueryLocation::Stop(StopIdx(1)), 0, 0)
        .with_departure(Time(28000))
        .with_date(Date(100));
    let mut state = State::new(&t);
    let it = solve(q, &t, &walks, &mut state).unwrap();
    assert_eq!(it.legs.len(), 1);
    assert_eq!(it.legs[0].leg_type, LegType::Walk);
    assert_eq!(it.legs[0].from, Location::Coordinate(here));
    assert_eq!(it.legs[0].to, Location::Stop(StopIdx(1)));
    assert_eq!(it.legs[0].departure_time.scheduled, Time(28000));
    assert_eq!(it.legs[0].arrival_time.scheduled, Time(28360));
}

#[test]
fn state_is_reusable_after_reset() {
    let t = line();
    let walks = no_walks(&t);
    let mut state = State::new(&t);
    let _ = solve(departure_query(0, 2, 28500), &t, &walks, &mut state).unwrap();
    state.reset();
    assert!(state.target_best_stop.is_none());
    assert!(state.parents.iter().all(|p| p.is_none()));
    let it = solve(departure_query(1, 2, 29500), &t, &walks, &mut state).unwrap();
    assert_eq!(it.legs[0].leg_type, LegType::Transit(TripIdx(1)));
}

#[test]
fn origin_parent_is_recorded_in_round_zero() {
    let t = line();
    let walks = no_walks(&t);
    let mut state = State::new(&t);
    let _ = solve(departure_query(0, 2, 28500), &t, &walks, &mut state).unwrap();
    assert_eq!(state.parents[state.calc_parent_idx(0, StopIdx(0))], Some(Parent::Origin));
    assert_eq!(state.target_best_stop, Some(StopIdx(2)));
    assert_eq!(state.target_best_round, Some(1));
}

#[test]
fn query_defaults() {
    let q = RaptorQuery::departing_at(QueryLocation::Stop(StopIdx(0)), QueryLocation::Stop(StopIdx(1)), 3600, 86_400 * 20_000 + 5);
    assert_eq!(q.time_direction, TimeDirection::Departure(Time(3600)));
    assert_eq!(q.date, Date(20_000));
    assert_eq!(q.search_radius, 1000);
    assert_eq!(q.transit_penalty, 1000);
    assert_eq!(q.transfer_penalty, 1500);
    assert_eq!(q.walk_penalty, 2000);
    let q = q.with_arrival(Time(7200));
    assert_eq!(q.time_direction, TimeDirection::Arrival(Time(7200)));
    let q = q.with_departure(Time(10));
    assert_eq!(q.time_direction, TimeDirection::Departure(Time(10)));
    let q = q.with_date(Date(7));
    assert_eq!(q.date, Date(7));
}

#[test]
fn query_date_rounds_toward_zero() {
    let q = RaptorQuery::departing_at(QueryLocation::Stop(StopIdx(0)), QueryLocation::Stop(StopIdx(1)), 0, -86_399);
    assert_eq!(q.date, Date(0));
}

#[test]
fn resolve_keeps_coordinates() {
    let c = Coordinate { latitude: 5, longitude: 6 };
    assert_eq!(QueryLocation::Coordinate(c).resolve(StopIdx(3)), Location::Coordinate(c));
    assert_eq!(QueryLocation::Stop(StopIdx(1)).resolve(StopIdx(3)), Location::Stop(StopIdx(3)));
    assert_eq!(QueryLocation::Stops(vec![StopIdx(1)]).resolve(StopIdx(3)), Location::Stop(StopIdx(3)));
}

#[test]
fn invalid_queries_are_detected() {
    let t = line();
    let q = departure_query(0, 9, 0);
    assert!(!q.is_valid_for(&t));
    let q = RaptorQuery::departing_at(QueryLocation::Stops(vec![StopIdx(0), StopIdx(4)]), QueryLocation::Stop(StopIdx(1)), 0, 0);
    assert!(!q.is_valid_for(&t));
}

#[test]
fn error_message() {
    assert_eq!(Error::NoRoute.message(), "No route was found".to_string());
}

#[test]
fn stop_groups_start_and_end_at_one_of_their_stops() {
    let t = line();
    let walks = no_walks(&t);
    let mut state = State::new(&t);
    // Stop D (3) has no trips and is left out of the search.
    let q = RaptorQuery::departing_at(
        QueryLocation::Stops(vec![StopIdx(3), StopIdx(1)]),
        QueryLocation::Stops(vec![StopIdx(2), StopIdx(3)]),
        0,
        0,
    )
    .with_departure(Time(29000))
    .with_date(Date(100));
    assert!(q.is_valid_for(&t));
    let it = solve(q, &t, &walks, &mut state).unwrap();
    assert_eq!(it.from, Location::Stop(StopIdx(1)));
    assert_eq!(it.to, Location::Stop(StopIdx(2)));
    assert_eq!(it.legs.len(), 1);
    assert_eq!(it.legs[0].leg_type, LegType::Transit(TripIdx(0)));
    assert_eq!(it.legs[0].from, it.from);
    assert_eq!(it.legs[0].to, it.to);
    assert_eq!(it.legs[0].stops.len(), 2);
    assert_eq!(it.legs[0].stops[0].departure_time, LiveTime::scheduled_only(Time(29400)));
    assert_eq!(it.legs[0].stops[1].arrival_time, LiveTime::scheduled_only(Time(30000)));
}

#[test]
fn query_departs_now_by_the_local_clock() {
    let q = RaptorQuery::new(QueryLocation::Stop(StopIdx(0)), QueryLocation::Coordinate(Coordinate { latitude: 1, longitude: 2 }));
    assert!(matches!(q.origin, QueryLocation::Stop(StopIdx(0))));
    assert!(matches!(q.destination, QueryLocation::Coordinate(Coordinate { latitude: 1, longitude: 2 })));
    match q.time_direction {
        TimeDirection::Departure(t) => assert!(t.0 < 86_400),
        TimeDirection::Arrival(_) => panic!("a new query departs"),
    }
    assert_eq!(q.search_radius, 1000);
    assert_eq!(q.walk_penalty, 2000);
}

#[test]
fn locations_convert_from_stops_and_coordinates() {
    let c = Coordinate { latitude: 3, longitude: 4 };
    assert!(matches!(QueryLocation::from(StopIdx(2)), QueryLocation::Stop(StopIdx(2))));
    assert!(matches!(QueryLocation::from(c), QueryLocation::Coordinate(x) if x == c));
    assert!(matches!(QueryLocation::from(vec![StopIdx(1), StopIdx(5)]), QueryLocation::Stops(v) if v == vec![StopIdx(1), StopIdx(5)]));
    assert_eq!(Location::from(StopIdx(2)), Location::Stop(StopIdx(2)));
    assert_eq!(Location::from(c), Location::Coordinate(c));
}

#[test]
fn itinerary_needs_a_closed_chain_of_parents() {
    let t = line();
    let q = departure_query(0, 2, 28500);
    let mut state = State::new(&t);
    // A target stop was reached, but no parent is recorded for it.
    state.target_best_stop = Some(StopIdx(2));
    state.target_best_round = Some(1);
    assert!(matches!(Itinerary::new(&q, &state, &t), Err(Error::NoRoute)));
    // Stop 2 is the origin itself: the chain closes at once.
    let idx = state.calc_parent_idx(0, StopIdx(2));
    state.parents[idx] = Some(Parent::Origin);
    let it = Itinerary::new(&q, &state, &t).unwrap();
    assert_eq!(it.from, Location::Stop(StopIdx(2)));
    assert_eq!(it.to, Location::Stop(StopIdx(2)));
    assert!(it.legs.is_empty());
}

#[test]
fn no_route_to_a_group_of_unserved_stops() {
    let t = line();
    let walks = no_walks(&t);
    let mut state = State::new(&t);
    let q = RaptorQuery::departing_at(QueryLocation::Stop(StopIdx(0)), QueryLocation::Stops(Vec::new()), 0, 0)
        .with_departure(Time(28500))
        .with_date(Date(100));
    assert!(matches!(solve(q, &t, &walks, &mut state), Err(Error::NoRoute)));
    let mut state = State::new(&t);
    let q = RaptorQuery::departing_at(QueryLocation::Stop(StopIdx(0)), QueryLocation::Stops(vec![StopIdx(3)]), 0, 0)
        .with_departure(Time(28500))
        .with_date(Date(100));
    assert!(matches!(solve(q, &t, &walks, &mut state), Err(Error::NoRoute)));
}

#[test]
fn same_stop_needs_no_leg() {
    let t = line();
    let walks = no_walks(&t);
    let mut state = State::new(&t);
    let it = solve(departure_query(1, 1, 28500), &t, &walks, &mut state).unwrap();
    assert_eq!(it.from, Location::Stop(StopIdx(1)));
    assert_eq!(it.to, Location::Stop(StopIdx(1)));
    assert!(it.legs.is_empty());
}

#[test]
fn walk_to_a_destination_coordinate_ends_the_journey() {
    let t = line();
    let mut walks = no_walks(&t);
    let there = Coordinate { latitude: 593_800_000, longitude: 180_100_000 };
    walks.destination = vec![(StopIdx(2), Duration(60))];
    let q = RaptorQuery::departing_at(QueryLocation::Stop(StopIdx(0)), QueryLocation::Coordinate(there), 0, 0)
        .with_departure(Time(28500))
        .with_date(Date(100));
    let mut state = State::new(&t);
    let it = solve(q, &t, &walks, &mut state).unwrap();
    assert_eq!(it.to, Location::Coordinate(there));
    assert_eq!(it.legs.len(), 2);
    let walk = &it.legs[1];
    assert_eq!(walk.leg_type, LegType::Walk);
    assert_eq!(walk.from, Location::Stop(StopIdx(2)));
    assert_eq!(walk.to, Location::Coordinate(there));
    assert_eq!(walk.departure_time.scheduled, Time(30000));
    assert_eq!(walk.arrival_time.scheduled, Time(30060));
    assert!(walk.stops.is_empty());
    assert!(walk.departure_time.scheduled.0 <= walk.arrival_time.scheduled.0);
}

#[test]
fn the_spare_parent_slot_is_never_written() {
    let t = line();
    let walks = no_walks(&t);
    let mut state = State::new(&t);
    let it = solve(departure_query(0, 2, 28500), &t, &walks, &mut state).unwrap();
    assert_eq!(it.legs.len(), 1);
    assert_eq!(state.parents.len(), t.stops.len() * 15 + 1);
    assert!(state.parents[t.stops.len() * 15].is_none());
    let rides = it.legs.iter().filter(|leg| matches!(leg.leg_type, LegType::Transit(_))).count();
    assert!(rides <= 14);
    assert!(it.legs.iter().all(|leg| matches!(leg.leg_type, LegType::Transit(_)) || leg.stops.is_empty()));
}

#[test]
fn same_stop_arrival_needs_no_leg() {
    let t = line();
    let walks = no_walks(&t);
    let mut state = State::new(&t);
    let q = departure_query(2, 2, 0).with_arrival(Time(31000));
    let it = solve(q, &t, &walks, &mut state).unwrap();
    assert_eq!(it.from, Location::Stop(StopIdx(2)));
    assert_eq!(it.to, Location::Stop(StopIdx(2)));
    assert!(it.legs.is_empty());
}

#[test]
fn a_cycle_of_transfers_finds_no_route() {
    // From O (0) one walks in 20 s to W (1), which rides to M (2) from 20 to
    // 50; O rides to C (3) from 0 to 100. With walking weighed 5 per second,
    // M is reached earlier but dearer than C. C and M transfer to each other
    // in 10 s, and in the first round each transfer improves the other stop,
    // so each records the other as its parent: the parents of C never lead
    // back to O.
    let mut t = Timetable {
        stops: vec![stop(vec![0], 1), stop(vec![1], 1), stop(vec![1], 1), stop(vec![0], 1)],
        trips: vec![
            Trip { service: ServiceIdx(0), pattern: TripPatternIdx(0), stop_times: vec![st(0, 0), st(100, 100)] },
            Trip { service: ServiceIdx(0), pattern: TripPatternIdx(1), stop_times: vec![st(20, 20), st(50, 50)] },
        ],
        trip_patterns: vec![
            TripPattern { stops: vec![StopIdx(0), StopIdx(3)], trips: vec![TripIdx(0)] },
            TripPattern { stops: vec![StopIdx(1), StopIdx(2)], trips: vec![TripIdx(1)] },
        ],
        services: vec![Service { start_date: Date(100), end_date: Date(100), mask_start: 0 }],
        active_mask: vec![0b1000_0000],
        transfers: vec![
            Transfer { from_stop: StopIdx(2), to_stop: StopIdx(3), min_transfer_time: Some(Duration(10)), walk_time: None },
            Transfer { from_stop: StopIdx(3), to_stop: StopIdx(2), min_transfer_time: Some(Duration(10)), walk_time: None },
        ],
    };
    t.stops[0].coordinate = Some(Coordinate { latitude: 593_700_000, longitude: 180_000_000 });
    t.stops[2].transfers_out.push(0);
    t.stops[3].transfers_in.push(0);
    t.stops[3].transfers_out.push(1);
    t.stops[2].transfers_in.push(1);
    assert!(t.is_well_formed());
    let mut walks = no_walks(&t);
    walks.by_stop[0] = vec![(StopIdx(1), Duration(20))];
    let mut q = departure_query(0, 3, 0);
    q.walk_penalty = 5000;
    let mut state = State::new(&t);
    let r = solve(q, &t, &walks, &mut state);
    assert!(matches!(r, Err(Error::NoRoute)));
    assert_eq!(state.target_best_stop, Some(StopIdx(3)));
    assert_eq!(state.target_best_round, Some(1));
    let n = t.stops.len();
    assert!(matches!(state.parents[n + 3], Some(Parent::Transfer { from_stop: StopIdx(2), .. })));
    assert!(matches!(state.parents[n + 2], Some(Parent::Transfer { from_stop: StopIdx(3), .. })));
}
