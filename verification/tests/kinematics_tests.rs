use flightradar::flight_path::Path;
use flightradar::kinematics::{
    distance_travelled, locate, path_length, pos_at_time, time_taken, FlightPath, Position,
};
use flightradar::vector::{FromLoc, Point};

#[test]
fn short_paths_are_flown_without_cruising() {
    // 40 length units: sqrt(8 * 40 / 2.5) = 11.31 s, with a peak of 14.1 per second
    assert_eq!(time_taken(40_000), 11_313);
    assert_eq!(time_taken(20_000), 8_000);
    assert_eq!(time_taken(45_000), 12_000);
    assert_eq!(time_taken(0), 0);
    assert_eq!(time_taken(1), 56);
}

#[test]
fn long_paths_cruise_at_the_speed_cap() {
    // 100 length units: the peak of the triangular profile, 22.4 per second,
    // is above the cap, so the time is 100 / 15 + 15 / 2.5 = 12.67 s
    assert_eq!(time_taken(100_000), 12_666);
    // the cap is reached on every path longer than the 45 units of a ramp
    assert_eq!(time_taken(45_001), 9_000);
    assert_eq!(time_taken(45_007), 9_000);
    assert_eq!(time_taken(45_008), 9_000);
    assert_eq!(time_taken(45_015), 9_001);
    assert_eq!(time_taken(90_000), 12_000);
    assert_eq!(time_taken(u64::MAX), u64::MAX / 15 + 6_000);
}

#[test]
fn distance_follows_the_three_parts_of_the_profile() {
    let l = 100_000;
    assert_eq!(distance_travelled(l, 0), Some(0));
    assert_eq!(distance_travelled(l, 1_000), Some(1_250));
    assert_eq!(distance_travelled(l, 6_000), Some(45_000));
    assert_eq!(distance_travelled(l, 6_001), Some(45_015));
    assert_eq!(distance_travelled(l, 6_666), Some(54_990));
    assert_eq!(distance_travelled(l, 6_667), Some(55_015));
    assert_eq!(distance_travelled(l, 11_666), Some(98_750));
    assert_eq!(distance_travelled(l, 12_666), Some(100_000));
    assert_eq!(distance_travelled(l, 12_667), None);
    assert_eq!(distance_travelled(l, u64::MAX), None);
}

#[test]
fn distance_of_a_short_path_eases_in_and_out() {
    let l = 20_000;
    assert_eq!(distance_travelled(l, 0), Some(0));
    assert_eq!(distance_travelled(l, 2_000), Some(5_000));
    assert_eq!(distance_travelled(l, 4_000), Some(20_000));
    assert_eq!(distance_travelled(l, 4_001), Some(10));
    assert_eq!(distance_travelled(l, 6_000), Some(15_000));
    assert_eq!(distance_travelled(l, 8_000), Some(20_000));
    assert_eq!(distance_travelled(l, 8_001), None);
    assert_eq!(distance_travelled(0, 0), Some(0));
    assert_eq!(distance_travelled(0, 1), None);
}

#[test]
fn distance_never_falls_on_a_path_with_room_for_both_ramps() {
    for l in [90_000u64, 90_001, 100_000, 123_457, 1_000_000] {
        let t = time_taken(l);
        let mut last = 0;
        for z in 0..=t {
            let s = distance_travelled(l, z).unwrap();
            assert!(last <= s, "length {} at {}", l, z);
            assert!(s <= l);
            last = s;
        }
        assert_eq!(last, l);
        assert_eq!(distance_travelled(l, t + 1), None);
    }
}

#[test]
fn distance_falls_between_the_parts_of_a_cramped_profile() {
    assert_eq!(time_taken(60_000), 10_000);
    assert_eq!(distance_travelled(60_000, 6_000), Some(45_000));
    assert_eq!(distance_travelled(60_000, 6_001), Some(40_010));
}

#[test]
fn positions_exist_exactly_up_to_the_time_taken() {
    for lengths in [vec![40_000u64], vec![10, 20, 30], vec![50_000, 0, 50_000], vec![0, 0], vec![7]] {
        let t = time_taken(path_length(&lengths).unwrap());
        for z in 0..=t {
            assert!(pos_at_time(&lengths, z).is_some(), "{:?} at {}", lengths, z);
        }
        assert_eq!(pos_at_time(&lengths, t + 1), None);
        assert_eq!(pos_at_time(&lengths, u64::MAX), None);
    }
    assert_eq!(pos_at_time(&vec![], 0), None);
}

#[test]
fn the_owning_segment_is_the_first_that_reaches_the_point() {
    let lengths = vec![10, 20, 30];
    assert_eq!(locate(&lengths, 0), Some((0, 0)));
    assert_eq!(locate(&lengths, 10), Some((0, 10)));
    assert_eq!(locate(&lengths, 11), Some((1, 1)));
    assert_eq!(locate(&lengths, 30), Some((1, 20)));
    assert_eq!(locate(&lengths, 31), Some((2, 1)));
    assert_eq!(locate(&lengths, 60), Some((2, 30)));
    assert_eq!(locate(&lengths, 61), None);
    assert_eq!(locate(&vec![], 0), None);
    assert_eq!(locate(&vec![0, 5], 0), Some((0, 0)));
    assert_eq!(locate(&vec![0, 5], 1), Some((1, 1)));
}

#[test]
fn positions_lie_at_the_distance_travelled() {
    let lengths = vec![40_000, 60_000];
    assert_eq!(pos_at_time(&lengths, 0), Some((0, 0)));
    assert_eq!(pos_at_time(&lengths, 6_001), Some((1, 5_015)));
    assert_eq!(pos_at_time(&lengths, 12_666), Some((1, 60_000)));
    let mut z = 0;
    while z <= 12_666 {
        let (i, into) = pos_at_time(&lengths, z).unwrap();
        let before: u64 = lengths[..i].iter().sum();
        assert_eq!(Some(before + into), distance_travelled(100_000, z));
        z += 37;
    }
}

#[test]
fn lengths_are_summed_while_they_fit() {
    assert_eq!(path_length(&vec![]), Some(0));
    assert_eq!(path_length(&vec![1, 2, 3]), Some(6));
    assert_eq!(path_length(&vec![u64::MAX, 0]), Some(u64::MAX));
    assert_eq!(path_length(&vec![u64::MAX, 1]), None);
    assert_eq!(pos_at_time(&vec![u64::MAX, 1], 0), None);
}


#[test]
fn a_flight_path_pairs_segments_with_lengths() {
    let run = |x: i32| Path::<Point, i64>::Straight(FromLoc { tail: Point { x, y: 0 }, vec: Point { x: 40, y: 0 } });
    assert_eq!(FlightPath::new(vec![run(0)], vec![]), None);
    let path = FlightPath::new(vec![run(0), run(40)], vec![40_000, 60_000]).unwrap();
    assert_eq!(path.length(), Some(100_000));
    assert_eq!(path.time_taken(), Some(12_666));
    assert_eq!(path.pos_at_time(0), Some(Position { index: 0, segment: &run(0), into: 0 }));
    assert_eq!(path.pos_at_time(6_001), Some(Position { index: 1, segment: &run(40), into: 5_015 }));
    assert_eq!(path.pos_at_time(12_666), Some(Position { index: 1, segment: &run(40), into: 60_000 }));
    assert_eq!(path.pos_at_time(12_667), None);
    let heavy = FlightPath::new(vec![run(0), run(40)], vec![u64::MAX, 1]).unwrap();
    assert_eq!(heavy.length(), None);
    assert_eq!(heavy.time_taken(), None);
    assert_eq!(heavy.pos_at_time(0), None);
    let empty = FlightPath::<Point, i64>::new(vec![], vec![]).unwrap();
    assert_eq!(empty.time_taken(), Some(0));
    assert_eq!(empty.pos_at_time(0), None);
}
