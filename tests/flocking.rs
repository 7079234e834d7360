use boids::boid::{Boid, IdSource};
use boids::config::{is_distinct_from_background, Params, Rgba, COS_UNIT};
use boids::flock::Flock;
use boids::random::SimRng;
use boids::vector::{clamp_vector_magnitude, isqrt, move_vec_towards, Vec2};

const WHITE: Rgba = Rgba { r: 255, g: 255, b: 255, a: 255 };

fn params(radius: i64, blind_spot_cos: i64, damping_num: i64, damping_den: i64) -> Params {
    Params {
        width: 1_050_000,
        height: 600_000,
        padding: 10_000,
        perception_radius: radius,
        blind_spot_cos,
        velocity_limit: 5_000,
        min_velocity: 100,
        damping_num,
        damping_den,
        separation: 50_000_000,
    }
}

fn default_params() -> Params {
    // cos(40 degrees) in units of COS_UNIT
    params(30_000, 50_203, 1, 1)
}

fn v(x: i64, y: i64) -> Vec2 {
    Vec2 { x, y }
}

fn dist_sq(a: Vec2, b: Vec2) -> i64 {
    (a.x - b.x) * (a.x - b.x) + (a.y - b.y) * (a.y - b.y)
}

fn flock_of(p: &Params, agents: &[(Vec2, Vec2)]) -> Flock {
    let mut f = Flock::empty();
    for &(pos, vel) in agents {
        assert!(f.push_agent(p, pos, vel, WHITE));
    }
    f
}

#[test]
fn two_stationary_agents_separate() {
    let p = params(30_000, COS_UNIT, 1, 1);
    let mut f = flock_of(&p, &[(v(100_000, 100_000), v(0, 0)), (v(110_000, 100_000), v(0, 0))]);
    let before = dist_sq(f.boid(0).position(), f.boid(1).position());
    f.advance_all(&p);
    let after = dist_sq(f.boid(0).position(), f.boid(1).position());
    assert!(after > before);
    assert_eq!(f.boid(0).velocity(), v(-1_111, 0));
    assert_eq!(f.boid(0).position(), v(98_889, 100_000));
    assert_eq!(f.boid(1).velocity(), v(574, 0));
    assert_eq!(f.boid(1).position(), v(110_574, 100_000));
    assert_eq!(f.boid(0).local_flock(), &vec![1]);
    assert_eq!(f.boid(1).local_flock(), &vec![0]);
}

#[test]
fn equal_seeds_give_equal_trajectories() {
    let p = default_params();
    let colors = vec![WHITE; 100];
    let mut a = Flock::new(&p, 42, &colors);
    let mut b = Flock::new(&p, 42, &colors);
    for _ in 0..20 {
        for i in 0..100 {
            assert_eq!(a.boid(i).position(), b.boid(i).position());
            assert_eq!(a.boid(i).velocity(), b.boid(i).velocity());
        }
        a.advance_all(&p);
        b.advance_all(&p);
    }
}

#[test]
fn no_agent_perceives_itself() {
    let p = params(200_000, COS_UNIT, 1, 1);
    let colors = vec![WHITE; 60];
    let mut f = Flock::new(&p, 7, &colors);
    let mut perceived_any = false;
    for _ in 0..5 {
        f.advance_all(&p);
        for i in 0..f.len() {
            assert!(!f.boid(i).local_flock().contains(&i));
            perceived_any |= !f.boid(i).local_flock().is_empty();
        }
    }
    assert!(perceived_any);
}

#[test]
fn perceived_agents_are_within_radius_and_outside_blind_spot() {
    let p = default_params();
    let colors = vec![WHITE; 80];
    let mut f = Flock::new(&p, 3, &colors);
    for _ in 0..3 {
        f.advance_all(&p);
    }
    // Recompute against the final state and compare with is_visible.
    for i in 0..f.len() {
        let me = Boid::with_state(i, f.boid(i).position(), f.boid(i).velocity(), WHITE);
        let mut probe = Boid::with_state(i, me.position(), me.velocity(), WHITE);
        probe.find_local_flock(&f.boids, &p);
        for j in 0..f.len() {
            let listed = probe.local_flock().contains(&j);
            assert_eq!(listed, j != i && me.is_visible(f.boid(j), &p));
            if listed {
                assert!(dist_sq(me.position(), f.boid(j).position()) <= 30_000 * 30_000);
            }
        }
    }
}

#[test]
fn blind_spot_hides_agents_behind() {
    let p = default_params();
    let me = Boid::with_state(0, v(500_000, 300_000), v(1_000, 0), WHITE);
    let behind = Boid::with_state(1, v(490_000, 300_000), v(0, 0), WHITE);
    let ahead = Boid::with_state(2, v(510_000, 300_000), v(0, 0), WHITE);
    let beside = Boid::with_state(3, v(500_000, 310_000), v(0, 0), WHITE);
    let far = Boid::with_state(4, v(540_000, 300_000), v(0, 0), WHITE);
    let behind_off_axis = Boid::with_state(5, v(490_000, 301_000), v(0, 0), WHITE);
    assert!(!me.is_visible(&behind, &p));
    assert!(!me.is_visible(&behind_off_axis, &p));
    assert!(me.is_visible(&ahead, &p));
    assert!(me.is_visible(&beside, &p));
    assert!(!me.is_visible(&far, &p));
}

#[test]
fn zero_blind_spot_sees_all_within_radius() {
    let p = params(30_000, COS_UNIT, 1, 1);
    let me = Boid::with_state(0, v(500_000, 300_000), v(1_000, 0), WHITE);
    let behind = Boid::with_state(1, v(490_000, 300_000), v(0, 0), WHITE);
    assert!(me.is_visible(&behind, &p));
}

#[test]
fn full_blind_spot_sees_nothing() {
    let p = params(30_000, -COS_UNIT, 1, 1);
    let me = Boid::with_state(0, v(500_000, 300_000), v(1_000, 0), WHITE);
    let ahead = Boid::with_state(2, v(510_000, 300_000), v(0, 0), WHITE);
    assert!(!me.is_visible(&ahead, &p));
}

#[test]
fn find_local_flock_lists_visible_others_in_order() {
    let p = default_params();
    let f = flock_of(
        &p,
        &[
            (v(500_000, 300_000), v(1_000, 0)),
            (v(510_000, 300_000), v(0, 0)),
            (v(490_000, 300_000), v(0, 0)),
            (v(500_000, 320_000), v(0, 0)),
            (v(800_000, 300_000), v(0, 0)),
        ],
    );
    let mut me = Boid::with_state(0, v(500_000, 300_000), v(1_000, 0), WHITE);
    me.find_local_flock(&f.boids, &p);
    assert_eq!(me.local_flock(), &vec![1, 3]);
}

#[test]
fn speed_relaxes_towards_the_limit() {
    let p = params(30_000, COS_UNIT, 1, 2);
    let mut f = flock_of(&p, &[(v(100_000, 100_000), v(8_000, 0))]);
    f.advance_all(&p);
    assert_eq!(f.boid(0).velocity(), v(6_500, 0));
    f.advance_all(&p);
    assert_eq!(f.boid(0).velocity(), v(5_750, 0));
    let mut last = 5_750 * 5_750;
    for _ in 0..30 {
        f.advance_all(&p);
        let vel = f.boid(0).velocity();
        let sq = vel.x * vel.x + vel.y * vel.y;
        assert!(sq <= last);
        assert!(sq >= 5_000 * 5_000);
        last = sq;
    }
}

#[test]
fn diagonal_speed_never_undershoots() {
    let p = params(30_000, COS_UNIT, 1, 1);
    let mut f = flock_of(&p, &[(v(100_000, 100_000), v(7_000, 7_000))]);
    for _ in 0..5 {
        f.advance_all(&p);
        let vel = f.boid(0).velocity();
        let sq = vel.x * vel.x + vel.y * vel.y;
        assert!(sq >= 5_000 * 5_000);
        assert!(sq <= 5_002 * 5_002);
    }
}

#[test]
fn wrap_keeps_inside_and_folds_overshoot() {
    let p = default_params();
    let mut inside = Boid::with_state(0, v(-10_000, 610_000), v(0, 0), WHITE);
    inside.wrap(&p);
    assert_eq!(inside.position(), v(-10_000, 610_000));
    let mut over = Boid::with_state(0, v(1_060_005, -10_001), v(0, 0), WHITE);
    over.wrap(&p);
    assert_eq!(over.position(), v(5, 599_999));
}

#[test]
fn isolated_agent_moves_in_a_straight_line_and_wraps() {
    let p = default_params();
    let mut f = flock_of(&p, &[(v(1_000_000, 300_000), v(3_000, 400))]);
    for k in 1..=10 {
        f.advance_all(&p);
        assert_eq!(f.boid(0).velocity(), v(3_000, 400));
        assert_eq!(f.boid(0).position(), v(1_000_000 + 3_000 * k, 300_000 + 400 * k));
    }
    for _ in 0..20 {
        f.advance_all(&p);
    }
    // 1_090_000 > 1_060_000, so the x coordinate wrapped once
    assert_eq!(f.boid(0).position(), v(1_090_000 - 1_060_000, 300_000 + 400 * 30));
}

#[test]
fn move_vec_towards_steps_or_snaps() {
    assert_eq!(move_vec_towards(v(0, 0), v(10, 0), 3), v(3, 0));
    assert_eq!(move_vec_towards(v(0, 0), v(10, 0), 20), v(10, 0));
    assert_eq!(move_vec_towards(v(0, 0), v(10, 0), 10), v(10, 0));
    assert_eq!(move_vec_towards(v(4, 4), v(4, 4), 0), v(4, 4));
    assert_eq!(move_vec_towards(v(0, 0), v(30, 40), 10), v(6, 8));
}

#[test]
fn clamp_vector_magnitude_rescales() {
    assert_eq!(clamp_vector_magnitude(v(3, 4), 10..20), v(6, 8));
    assert_eq!(clamp_vector_magnitude(v(30, 40), 1..10), v(6, 8));
    assert_eq!(clamp_vector_magnitude(v(0, 0), 1..10), v(0, 0));
    assert_eq!(clamp_vector_magnitude(v(6, 8), 5..20), v(6, 8));
    assert_eq!(clamp_vector_magnitude(v(-30, 40), 1..10), v(-6, 8));
}

#[test]
fn integer_square_root() {
    assert_eq!(isqrt(0), 0);
    assert_eq!(isqrt(15), 3);
    assert_eq!(isqrt(16), 4);
    assert_eq!(isqrt(1 << 60), 1 << 30);
}

#[test]
fn steering_rules_without_neighbours_give_nothing() {
    let p = default_params();
    let f = flock_of(&p, &[(v(100_000, 100_000), v(100, 0))]);
    let me = Boid::with_state(0, v(100_000, 100_000), v(100, 0), WHITE);
    assert_eq!(me.get_align_vector(&f.boids, &p), None);
    assert_eq!(me.get_cohesion_vector(&f.boids, &p), None);
    assert!(me.get_separation_vectors(&f.boids, &p).is_empty());
    assert_eq!(me.get_avg_position(&f.boids, &p), v(0, 0));
}

#[test]
fn steering_rules_with_neighbours() {
    let p = params(30_000, COS_UNIT, 1, 1);
    let f = flock_of(
        &p,
        &[
            (v(100_000, 100_000), v(100, 0)),
            (v(110_000, 100_000), v(300, 200)),
            (v(100_000, 100_000), v(-100, 0)),
        ],
    );
    let mut me = Boid::with_state(0, v(100_000, 100_000), v(100, 0), WHITE);
    me.find_local_flock(&f.boids, &p);
    assert_eq!(me.local_flock(), &vec![1, 2]);
    assert_eq!(me.get_avg_velocity(&f.boids, &p), v(100, 100));
    assert_eq!(me.get_avg_position(&f.boids, &p), v(105_000, 100_000));
    assert_eq!(me.get_align_vector(&f.boids, &p), Some(v(0, 100)));
    assert_eq!(me.get_cohesion_vector(&f.boids, &p), Some(v(1_666, 0)));
    // the agent at the same position pushes nothing
    assert_eq!(me.get_separation_vectors(&f.boids, &p), vec![v(-5_000, 0)]);
}

#[test]
fn new_agents_start_inside_the_domain_below_the_limit() {
    let p = default_params();
    let colors = vec![WHITE; 50];
    let f = Flock::new(&p, 11, &colors);
    let mut distinct_positions = std::collections::HashSet::new();
    for i in 0..f.len() {
        let b = f.boid(i);
        assert_eq!(b.id(), i);
        assert!(b.position().x >= 0 && b.position().x <= 1_050_000);
        assert!(b.position().y >= 0 && b.position().y <= 600_000);
        let vel = b.velocity();
        assert!(vel.x * vel.x + vel.y * vel.y <= 5_000 * 5_000);
        assert!(vel.x * vel.x + vel.y * vel.y >= 100 * 100);
        assert!(b.local_flock().is_empty());
        distinct_positions.insert((b.position().x, b.position().y));
    }
    assert!(distinct_positions.len() > 40);
}

#[test]
fn generator_draws_stay_in_range() {
    let mut rng = SimRng::seeded(5);
    let mut seen_low = false;
    let mut seen_high = false;
    for _ in 0..200 {
        let x = rng.draw(-3, 3);
        assert!((-3..=3).contains(&x));
        seen_low |= x == -3;
        seen_high |= x == 3;
    }
    assert!(seen_low && seen_high);
    assert_eq!(rng.draw(9, 9), 9);
}

#[test]
fn push_agent_refuses_out_of_domain() {
    let p = default_params();
    let mut f = Flock::empty();
    assert!(!f.push_agent(&p, v(-10_001, 0), v(0, 0), WHITE));
    assert!(!f.push_agent(&p, v(0, 0), v(1_060_001, 0), WHITE));
    assert_eq!(f.len(), 0);
    assert!(f.push_agent(&p, v(1_060_000, 610_000), v(0, 0), WHITE));
    assert_eq!(f.len(), 1);
    assert_eq!(f.boid(0).id(), 0);
}

#[test]
fn params_validation() {
    assert!(default_params().is_valid());
    let mut bad = default_params();
    bad.width = 0;
    assert!(!bad.is_valid());
    let mut bad = default_params();
    bad.blind_spot_cos = COS_UNIT + 1;
    assert!(!bad.is_valid());
    let mut bad = default_params();
    bad.damping_num = 3;
    bad.damping_den = 2;
    assert!(!bad.is_valid());
    let mut bad = default_params();
    bad.min_velocity = 6_000;
    assert!(!bad.is_valid());
}

#[test]
fn colours_near_the_background_are_refused() {
    let bg = Rgba { r: 99, g: 143, b: 186, a: 50 };
    assert!(!is_distinct_from_background(bg, bg));
    assert!(is_distinct_from_background(Rgba { r: 0, g: 0, b: 0, a: 255 }, bg));
    assert!(is_distinct_from_background(Rgba { r: 159, g: 143, b: 106, a: 255 }, bg));
    assert!(!is_distinct_from_background(Rgba { r: 159, g: 143, b: 107, a: 255 }, bg));
}

#[test]
fn identities_increase_from_the_source() {
    let p = default_params();
    let mut ids = IdSource::new();
    let mut rng = SimRng::seeded(1);
    let a = Boid::new(&mut ids, &p, &mut rng, WHITE);
    let b = Boid::new(&mut ids, &p, &mut rng, WHITE);
    let c = Boid::new(&mut ids, &p, &mut rng, WHITE);
    assert_eq!((a.id(), b.id(), c.id()), (0, 1, 2));
    assert_eq!(ids.next, 3);
}

#[test]
fn from_draws_scales_the_heading_to_the_speed() {
    let p = default_params();
    let b = Boid::from_draws(7, 1_000, 2_000, 1_000, v(3, 4), WHITE, &p);
    assert_eq!(b.id(), 7);
    assert_eq!(b.position(), v(1_000, 2_000));
    assert_eq!(b.velocity(), v(600, 800));
    assert!(b.local_flock().is_empty());
    // (1, 1) scaled by 100 / 2 rounds to (50, 50), slower than 100: the axis
    // direction is taken at exactly the drawn speed
    let slow = Boid::from_draws(0, 0, 0, 100, v(1, 1), WHITE, &p);
    assert_eq!(slow.velocity(), v(100, 0));
    let down = Boid::from_draws(0, 0, 0, 100, v(-1, -3), WHITE, &p);
    assert_eq!(down.velocity(), v(0, -100));
}

#[test]
fn clamp_reaches_the_range_and_keeps_it() {
    assert_eq!(clamp_vector_magnitude(v(1, 1), 3..3), v(3, 3));
    let once = clamp_vector_magnitude(v(1, 1), 3..5);
    assert_eq!(once, v(3, 3));
    assert_eq!(clamp_vector_magnitude(once, 3..5), once);
    let shrunk = clamp_vector_magnitude(v(7, 7), 1..5);
    assert!(shrunk.x * shrunk.x + shrunk.y * shrunk.y <= 25);
    assert_eq!(clamp_vector_magnitude(shrunk, 1..5), shrunk);
}

#[test]
fn one_unit_over_the_limit_is_relaxed() {
    let p = params(30_000, COS_UNIT, 1, 2);
    let mut f = flock_of(&p, &[(v(100_000, 100_000), v(5_001, 0))]);
    f.advance_all(&p);
    assert_eq!(f.boid(0).velocity(), v(5_000, 0));
}

#[test]
fn large_push_keeps_its_direction_before_the_guard() {
    // Two agents one unit apart push each other with strength 50_000_000:
    // the soft limit acts on the full sum, then the guard.
    let p = params(30_000, COS_UNIT, 1, 1);
    let mut f = flock_of(&p, &[(v(100_000, 100_000), v(0, 0)), (v(100_001, 100_001), v(0, 0))]);
    f.advance_all(&p);
    let vel = f.boid(0).velocity();
    assert!(vel.x < 0 && vel.y < 0);
    assert_eq!(vel.x, vel.y);
    assert!(vel.x * vel.x + vel.y * vel.y >= 5_000 * 5_000);
}
