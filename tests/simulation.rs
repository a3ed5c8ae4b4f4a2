use boids::behaviour::{
    AlignBehaviour, BehaviourEnabled, BorderBehaviourE, BoundBehaviour, CohesionBehaviour,
    SeperateBehaviour, REFLECT_MARGIN, WRAP_MARGIN,
};
use boids::boid::Boid;
use boids::boid_mgr::{spawn_heading, BoidManager, ConfigError};
use boids::constants::{IdIterator, MAX_BOID_SPEED, VIEW_PORT_HEIGHT, VIEW_PORT_WIDTH};
use boids::region::Region;
use boids::vec::Vector2;

fn world() -> Region {
    Region::new(Vector2::new(0, 0), Vector2::new(VIEW_PORT_WIDTH, VIEW_PORT_HEIGHT))
}

fn all() -> BehaviourEnabled {
    BehaviourEnabled::from_bits(BehaviourEnabled::ALL_ENABLED)
}

fn none() -> BehaviourEnabled {
    BehaviourEnabled::from_bits(BehaviourEnabled::ALL_DISABLED)
}

#[test]
fn steering_is_zero_without_neighbours() {
    let me = Boid::new(Vector2::new(400000, 300000), Vector2::new(1000, -500), 7);
    let alone = [me];
    assert_eq!(AlignBehaviour.calculate(all(), &me, &alone), Vector2::zero());
    assert_eq!(CohesionBehaviour.calculate(all(), &me, &alone), Vector2::zero());
    assert_eq!(SeperateBehaviour.calculate(all(), &me, &alone), Vector2::zero());
    assert_eq!(AlignBehaviour.calculate(all(), &me, &[]), Vector2::zero());
}

#[test]
fn steering_is_zero_when_disabled() {
    let me = Boid::new(Vector2::new(400000, 300000), Vector2::new(1000, -500), 7);
    let other = Boid::new(Vector2::new(401000, 300000), Vector2::new(0, 2000), 8);
    let s = [me, other];
    assert_eq!(AlignBehaviour.calculate(none(), &me, &s), Vector2::zero());
    assert_eq!(CohesionBehaviour.calculate(none(), &me, &s), Vector2::zero());
    assert_eq!(SeperateBehaviour.calculate(none(), &me, &s), Vector2::zero());
    let edge = Boid::new(Vector2::new(10, 10), Vector2::zero(), 1);
    assert_eq!(BoundBehaviour.calculate(none(), &edge, &world()), Vector2::zero());
}

#[test]
fn align_steers_toward_neighbour_heading() {
    let me = Boid::new(Vector2::new(400000, 300000), Vector2::zero(), 1);
    let other = Boid::new(Vector2::new(401000, 300000), Vector2::new(0, 2000), 2);
    // mean velocity (0, 2000) rescaled to 6100, weighted 300/1000
    assert_eq!(AlignBehaviour.calculate(all(), &me, &[me, other]), Vector2::new(0, 1830));
}

#[test]
fn cohesion_steers_toward_neighbour() {
    let me = Boid::new(Vector2::new(400000, 300000), Vector2::zero(), 1);
    let other = Boid::new(Vector2::new(403000, 300000), Vector2::zero(), 2);
    assert_eq!(CohesionBehaviour.calculate(all(), &me, &[me, other]), Vector2::new(1830, 0));
}

#[test]
fn go_through_wraps_left_and_top_edges() {
    let mut b = Boid::new(Vector2::new(1200, 500), Vector2::new(-3000, -700), 1);
    b.border(BorderBehaviourE::GoThrough, &world());
    assert_eq!(b.position, Vector2::new(VIEW_PORT_WIDTH - WRAP_MARGIN - 800, VIEW_PORT_HEIGHT - WRAP_MARGIN - 1500));
    assert_eq!(b.velocity, Vector2::new(-3000, -700));
}

#[test]
fn cohesion_with_neighbours_centred_on_origin() {
    let me = Boid::new(Vector2::new(100000, 0), Vector2::zero(), 1);
    let left = Boid::new(Vector2::new(-5000, 0), Vector2::zero(), 2);
    let right = Boid::new(Vector2::new(5000, 0), Vector2::zero(), 3);
    assert_eq!(CohesionBehaviour.calculate(all(), &me, &[me, left, right]), Vector2::new(-1830, 0));
}

#[test]
fn align_with_opposite_neighbours() {
    let me = Boid::new(Vector2::new(400000, 300000), Vector2::new(1000, 0), 1);
    let a = Boid::new(Vector2::new(401000, 300000), Vector2::new(500, 0), 2);
    let b = Boid::new(Vector2::new(399000, 300000), Vector2::new(-500, 0), 3);
    assert_eq!(AlignBehaviour.calculate(all(), &me, &[me, a, b]), Vector2::new(-300, 0));
}

#[test]
fn separate_steers_away_from_neighbour() {
    let me = Boid::new(Vector2::new(400000, 300000), Vector2::zero(), 1);
    let other = Boid::new(Vector2::new(403000, 300000), Vector2::zero(), 2);
    assert_eq!(SeperateBehaviour.calculate(all(), &me, &[me, other]), Vector2::new(-1830, 0));
}

#[test]
fn separate_at_same_spot_stays_finite() {
    let me = Boid::new(Vector2::new(400000, 300000), Vector2::new(100, 0), 1);
    let twin = Boid::new(Vector2::new(400000, 300000), Vector2::new(-100, 0), 2);
    let a = SeperateBehaviour.calculate(all(), &me, &[me, twin]);
    assert_eq!(a, Vector2::new(-30, 0));
}

#[test]
fn bound_pushes_back_inside() {
    let near_left = Boid::new(Vector2::new(5000, 300000), Vector2::zero(), 1);
    assert_eq!(BoundBehaviour.calculate(all(), &near_left, &world()), Vector2::new(1000, 0));
    let near_bottom_right = Boid::new(Vector2::new(790000, 590000), Vector2::zero(), 2);
    assert_eq!(BoundBehaviour.calculate(all(), &near_bottom_right, &world()), Vector2::new(-1000, -1000));
    let middle = Boid::new(Vector2::new(400000, 300000), Vector2::zero(), 3);
    assert_eq!(BoundBehaviour.calculate(all(), &middle, &world()), Vector2::zero());
}

#[test]
fn integration_caps_speed() {
    let mut b = Boid::new(Vector2::new(400000, 300000), Vector2::new(100000, 100000), 1);
    b.update(Vector2::new(500000, -20000), BorderBehaviourE::GoThrough, &world());
    assert!(b.velocity.length_sq() <= MAX_BOID_SPEED * MAX_BOID_SPEED);
    let mut slow = Boid::new(Vector2::new(400000, 300000), Vector2::new(1000, 0), 2);
    slow.update(Vector2::new(2000, 0), BorderBehaviourE::GoThrough, &world());
    assert_eq!(slow.velocity, Vector2::new(2002, 0));
    assert_eq!(slow.position, Vector2::new(402002, 300000));
}

#[test]
fn go_through_wraps_right_edge() {
    let mut b = Boid::new(Vector2::new(VIEW_PORT_WIDTH - 500, 300000), Vector2::new(3000, 10), 1);
    b.border(BorderBehaviourE::GoThrough, &world());
    // 1500 past the right margin, so 1500 past the left one
    assert_eq!(b.position, Vector2::new(WRAP_MARGIN + 1500, 300000));
    assert_eq!(b.velocity, Vector2::new(3000, 10));
}

#[test]
fn reflect_bounces_off_right_edge() {
    let mut b = Boid::new(Vector2::new(VIEW_PORT_WIDTH - 500, 300000), Vector2::new(3000, 10), 1);
    b.border(BorderBehaviourE::Reflect, &world());
    assert_eq!(b.position, Vector2::new(VIEW_PORT_WIDTH - REFLECT_MARGIN, 300000));
    assert_eq!(b.velocity, Vector2::new(-3000, 10));
}

#[test]
fn enable_mask_toggles() {
    let mut e = BehaviourEnabled::from_bits(BehaviourEnabled::ALL_ENABLED);
    assert!(e.contains(BehaviourEnabled::COHESION));
    e.toggle(BehaviourEnabled::COHESION);
    assert!(!e.contains(BehaviourEnabled::COHESION));
    assert!(e.contains(BehaviourEnabled::BOUND));
}

#[test]
fn ids_increase() {
    let mut ids = IdIterator::new();
    assert_eq!(ids.get_next(), 0);
    assert_eq!(ids.get_next(), 1);
    assert_eq!(ids.get_next(), 2);
}

#[test]
fn boid_mgr_get_all_boids_in_boundry() {
    let mut m = BoidManager::new(world());
    m.spawn_boid(50);
    assert_eq!(m.boids.len(), 50);
    m.update_boids_in_quad_tree();
    let mut found = vec![];
    m.quad_tree.get_all_boids_in_boundry(&world(), &mut found);
    assert!(found.len() <= 50);
    for b in &found {
        assert!(m.boids.contains(b));
    }
}

#[test]
fn update_boids_in_quad_tree() {
    let mut m = BoidManager::new(world());
    m.spawn_boid(200);
    for (i, b) in m.boids.iter().enumerate() {
        assert!(b.position.x >= 0 && b.position.x < VIEW_PORT_WIDTH);
        assert!(b.velocity.length_sq() <= 2000 * 2000);
        assert!(b.velocity.length_sq() >= 1995 * 1995);
        assert_eq!(b.id, i);
    }
    for _ in 0..5 {
        m.update(all(), BorderBehaviourE::Reflect);
        assert_eq!(m.boids.len(), 200);
        for b in &m.boids {
            assert!(b.velocity.length_sq() <= MAX_BOID_SPEED * MAX_BOID_SPEED);
            assert!(b.position.x > 0 && b.position.x < VIEW_PORT_WIDTH);
        }
    }
    m.remove_all_boids();
    assert!(m.boids.is_empty());
}

#[test]
fn twins_tick_without_blowing_up() {
    let mut m = BoidManager::new(world());
    m.boids.push(Boid::new(Vector2::new(400000, 300000), Vector2::new(100, 0), 0));
    m.boids.push(Boid::new(Vector2::new(400000, 300000), Vector2::new(-100, 0), 1));
    let sep = BehaviourEnabled::from_bits(BehaviourEnabled::SEPERATE);
    m.update(sep, BorderBehaviourE::GoThrough);
    assert_eq!(m.boids.len(), 2);
    for b in &m.boids {
        assert!(b.velocity.length_sq() <= MAX_BOID_SPEED * MAX_BOID_SPEED);
    }
    assert_eq!(m.quad_tree.count(), 2);
}

#[test]
fn spawn_heading_follows_the_draw() {
    assert_eq!(spawn_heading(Vector2::new(3, 4)), Vector2::new(1200, 1600));
    assert_eq!(spawn_heading(Vector2::new(-600, 800)), Vector2::new(-1200, 1600));
    assert_eq!(spawn_heading(Vector2::new(1000, 0)), Vector2::new(2000, 0));
    assert_eq!(spawn_heading(Vector2::new(0, 0)), Vector2::new(2000, 0));
    assert_eq!(spawn_heading(Vector2::new(0, -1)), Vector2::new(0, -2000));
}

#[test]
fn try_new_rejects_bad_worlds() {
    assert!(BoidManager::try_new(world()).is_ok());
    let tiny = Region::new(Vector2::new(0, 0), Vector2::new(10000, 10000));
    assert_eq!(BoidManager::try_new(tiny).err(), Some(ConfigError::BadWorld));
    let inverted = Region::new(Vector2::new(VIEW_PORT_WIDTH, VIEW_PORT_HEIGHT), Vector2::new(0, 0));
    assert_eq!(BoidManager::try_new(inverted).err(), Some(ConfigError::BadWorld));
    let huge = Region::new(Vector2::new(0, 0), Vector2::new(1 << 29, 1000000));
    assert_eq!(BoidManager::try_new(huge).err(), Some(ConfigError::BadWorld));
}

#[test]
fn added_boids_get_new_identities() {
    let mut m = BoidManager::try_new(world()).unwrap();
    m.add_boid(3);
    m.update(all(), BorderBehaviourE::GoThrough);
    m.add_boid(4);
    let mut ids: Vec<usize> = m.boids.iter().map(|b| b.id).collect();
    assert_eq!(ids, vec![0, 1, 2, 3, 4, 5, 6]);
    ids.dedup();
    assert_eq!(ids.len(), 7);
}
