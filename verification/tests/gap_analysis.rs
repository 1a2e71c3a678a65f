use walker_constellation_calculator::convergents::convergent_revisit;
use walker_constellation_calculator::circle::largest_gap;
use walker_constellation_calculator::gaps::{light_simulation_revisit, Gap, PointGaps};
use walker_constellation_calculator::sorting::{sort_events_by_time, sort_points};

#[test]
fn largest_gap_is_correct() {
    // Five points on a circle of circumference 1.0, in tenths: the biggest
    // empty arc is between 0.3 and 0.9 (length 0.6); the wraparound from 1.0
    // back to 0.0 is degenerate.
    let mut v = vec![0, 2, 3, 9, 10];
    let lg = largest_gap(&mut v, 10).expect("non-empty input");
    assert_eq!(lg, 6, "got {lg}");
}

#[test]
fn largest_gap_uses_circular_wraparound() {
    // Three satellites at 90°, 180°, 270° on a 360° circle: the largest empty
    // arc wraps through 0°, from 270° forward to 90°.
    let mut v = vec![90, 180, 270];
    let lg = largest_gap(&mut v, 360).expect("non-empty input");
    assert_eq!(lg, 180, "got {lg}");
}

#[test]
fn largest_gap_single_point_is_full_circle() {
    let mut v = vec![42];
    let lg = largest_gap(&mut v, 360).expect("non-empty input");
    assert_eq!(lg, 360, "got {lg}");
}

#[test]
fn largest_gap_empty_is_none() {
    let mut v: Vec<i64> = vec![];
    assert!(largest_gap(&mut v, 360).is_none());
}

#[test]
fn point_gaps_reports_circular_wraparound() {
    let pg = PointGaps::new(360, vec![0, 1, 2], vec![90, 180, 270], 10, 0);
    let third = *pg.take(3).last().expect("three steps");
    assert_eq!(third.largest_gap, 180, "got {}", third.largest_gap);
}

#[test]
fn point_gaps_correct() {
    // Times in half seconds: 0, 5, 10, 12.5, 2.5, 7.5 s and a 15 s round.
    let pg = PointGaps::new(
        360,
        vec![0, 10, 20, 25, 5, 15],
        vec![0, 120, 240, 60, 180, 300],
        30,
        180,
    );
    let actual: Vec<(i64, i64, i128)> = pg
        .take(12)
        .iter()
        .map(|g| (g.new_t, g.new_phi, g.largest_gap))
        .collect();

    let expected: Vec<(i64, i64, i128)> = vec![
        (0, 0, 360),
        (5, 180, 180),
        (10, 120, 180),
        (15, 300, 120),
        (20, 240, 120),
        (25, 60, 60),
        (30, 180, 60),
        (35, 0, 60),
        (40, 300, 60),
        (45, 120, 60),
        (50, 60, 60),
        (55, 240, 60),
    ];

    assert_eq!(actual.len(), expected.len());
    for ((at, aphi, agap), (et, ephi, egap)) in actual.into_iter().zip(expected) {
        assert_eq!(at, et, "t: got {at}, expected {et}");
        assert_eq!(aphi, ephi, "t: {at}, phi: got {aphi}, expected {ephi}");
        assert_eq!(agap, egap, "t: {at}, gap: got {agap}, expected {egap}");
    }
}

#[test]
fn largest_gap_sorts_its_input() {
    let mut v = vec![270, -5, 90, 90, 0];
    let lg = largest_gap(&mut v, 360);
    assert_eq!(v, vec![-5, 0, 90, 90, 270]);
    // Arcs: 5, 90, 0, 180; wraparound 360 - 270 - 5 = 85.
    assert_eq!(lg, Some(180));
}

#[test]
fn largest_gap_wraparound_can_be_widest() {
    let mut v = vec![100, 120, 140];
    assert_eq!(largest_gap(&mut v, 360), Some(320));
}

#[test]
fn largest_gap_ignores_order_of_points() {
    let mut a = vec![10, 200, 50, 300];
    let mut b = vec![300, 50, 10, 200];
    assert_eq!(largest_gap(&mut a, 360), largest_gap(&mut b, 360));
    assert_eq!(largest_gap(&mut a, 360), Some(150));
}

#[test]
fn adding_a_point_never_widens_the_gap() {
    let mut before = vec![10, 100, 250];
    let mut after = vec![10, 100, 250, 300];
    let g0 = largest_gap(&mut before, 360).unwrap();
    let g1 = largest_gap(&mut after, 360).unwrap();
    assert_eq!(g0, 150);
    assert_eq!(g1, 150);
    let mut more = vec![10, 100, 250, 300, 175];
    assert_eq!(largest_gap(&mut more, 360).unwrap(), 90);
}

#[test]
fn sort_points_orders_ascending() {
    let mut v = vec![5, -1, 3, 3, i64::MIN, i64::MAX, 0];
    sort_points(&mut v);
    assert_eq!(v, vec![i64::MIN, -1, 0, 3, 3, 5, i64::MAX]);
}

#[test]
fn events_sort_is_stable_by_time() {
    let (t, p) = sort_events_by_time(vec![5, 1, 5, 0, 1], vec![10, 20, 30, 40, 50]);
    assert_eq!(t, vec![0, 1, 1, 5, 5]);
    assert_eq!(p, vec![40, 20, 50, 10, 30]);
}

#[test]
fn point_gaps_position_keeps_sign_of_its_sum() {
    // A negative step moves positions below zero; the remainder keeps the
    // sign of the sum, as a truncating remainder does.
    let mut pg = PointGaps::new(360, vec![0], vec![10], 100, -30);
    let g0 = pg.next().unwrap();
    let g1 = pg.next().unwrap();
    assert_eq!(g0, Gap { new_t: 0, new_phi: 10, largest_gap: 360 });
    assert_eq!(g1.new_t, 100);
    assert_eq!(g1.new_phi, -20);
    // Points -20 and 10: arc 30, wraparound 360 - 10 - 20 = 330.
    assert_eq!(g1.largest_gap, 330);
    let mut pg = PointGaps::new(360, vec![0], vec![10], 100, -400);
    pg.next().unwrap();
    assert_eq!(pg.next().unwrap().new_phi, -30);
}

#[test]
fn point_gaps_stop_when_time_overflows() {
    let mut pg = PointGaps::new(360, vec![i64::MAX - 5], vec![0], 10, 90);
    assert!(pg.next().is_some());
    assert!(pg.next().is_none());
    assert!(pg.next().is_none());
    let pg = PointGaps::new(360, vec![i64::MAX - 5], vec![0], 10, 90);
    assert_eq!(pg.take(5).len(), 1);
}

#[test]
fn light_simulation_finds_first_closing_pass() {
    // Two satellites in one plane: first passes at (0, 0°) and (50, 180°);
    // each orbit of 100 time units the equator drifts by 90°.
    // Gaps after each pass: 360, 180, 180, 90.
    assert_eq!(light_simulation_revisit(2, 1, 100, 360, 90, 100), Some(150));
    assert_eq!(light_simulation_revisit(2, 1, 100, 360, 90, 180), Some(150));
    assert_eq!(light_simulation_revisit(2, 1, 100, 360, 90, 181), Some(50));
    assert_eq!(light_simulation_revisit(2, 1, 100, 360, 90, 361), Some(0));
}

#[test]
fn light_simulation_without_drift_never_closes() {
    assert_eq!(light_simulation_revisit(2, 1, 100, 360, 0, 100), None);
}

#[test]
fn light_simulation_two_planes_phasing() {
    // Two planes of two: plane 0 at 0° and 180°, plane 1 at 180° and 0°,
    // first passes at times 0 and 50 in each plane. Stable time order:
    // (0, 0°), (0, 180°), (50, 180°), (50, 0°); 45° of drift per orbit.
    // Widest gaps: 360, 180 (x4), 135 (x4), 90 (x4), then 45 at step 13.
    assert_eq!(light_simulation_revisit(2, 2, 100, 360, 45, 271), Some(0));
    assert_eq!(light_simulation_revisit(2, 2, 100, 360, 45, 180), Some(100));
    assert_eq!(light_simulation_revisit(2, 2, 100, 360, 45, 91), Some(200));
    assert_eq!(light_simulation_revisit(2, 2, 100, 360, 45, 46), Some(300));
}

#[test]
fn light_simulation_resolves_earth_like_in_plane_gaps() {
    // Inclination 60°, 2 planes of 2 satellites at 500 km over a 6371 km
    // planet, a planet turning 15° per hour and a 20° field of view: the
    // in-plane spacing exceeds the equatorial swath.
    let radius = 6_371_000.0_f64;
    let altitude = 500_000.0_f64;
    let mu = 3.986_004_418e14_f64;
    let omega = (15.0_f64 / 3600.0).to_radians();
    let fov = 20.0_f64.to_radians();
    let inclination = 60.0_f64.to_radians();
    let alpha = fov * 0.5;
    let ratio = (radius + altitude) / radius;
    let sigma = (ratio * alpha.sin()).clamp(-1.0, 1.0).asin() - alpha;
    let swath = 2.0 * sigma / inclination.sin();
    let a = radius + altitude;
    let t_orb = 2.0 * std::f64::consts::PI * (a.powi(3) / mu).sqrt();
    assert!((omega * t_orb / 2.0).abs() > swath);

    let angle_unit = 1e-9; // rad
    let time_unit = 1e-3; // s
    let circumference = (2.0 * std::f64::consts::PI / angle_unit).round() as i64;
    let period = (t_orb / time_unit).round() as i64;
    let drift = ((2.0 * std::f64::consts::PI - t_orb * omega) / angle_unit).round() as i64;
    let swath_units = (swath / angle_unit).round() as i64;
    let t = light_simulation_revisit(2, 2, period, circumference, drift, swath_units)
        .expect("in-plane gaps should close");
    assert!(t > 0);
}

#[test]
fn point_gaps_next_follows_rounds_from_a_fresh_start() {
    // Sorted by time: (1, 30), (4, 200); each round adds 10 in time and 100
    // in position on a circle of 360.
    let mut pg = PointGaps::new(360, vec![4, 1], vec![200, 30], 10, 100);
    let expected = [(1, 30, 360), (4, 200, 190), (11, 130, 190), (14, 300, 100)];
    for (t, phi, gap) in expected {
        let g = pg.next().expect("every step fits");
        assert_eq!((g.new_t, g.new_phi, g.largest_gap), (t, phi, gap));
    }
}

#[test]
fn convergent_revisit_uses_first_qualifying_convergent() {
    // Shift 135 of 360 per pass: 135/360 = 3/8 = [0; 2, 1, 2], convergents
    // 0/1, 1/2, 1/3, 3/8 with residuals 135, 90, 45, 0.
    assert_eq!(convergent_revisit(50, 135, 360, 100), Some(100));
    assert_eq!(convergent_revisit(50, 135, 360, 136), Some(50));
    assert_eq!(convergent_revisit(50, 135, 360, 90), Some(150));
    assert_eq!(convergent_revisit(50, 135, 360, 45), Some(400));
    assert_eq!(convergent_revisit(50, 135, 360, 0), None);
    assert_eq!(convergent_revisit(i64::MAX, 135, 360, 100), None);
}
