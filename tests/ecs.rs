use boids::ecs::{EntityError, EntityManager, Signature, MAX_COMPONENTS, MAX_ENTITIES};
use boids::ecs::Entity;

#[test]
fn create_entity() {
    let mut em = EntityManager::new();
    let i = em.create_entity().unwrap();
    assert_eq!(i, MAX_ENTITIES as Entity - 1);
}

#[test]
fn entities_run_out() {
    let mut em = EntityManager::new();
    for k in 0..MAX_ENTITIES {
        assert_eq!(em.create_entity(), Ok(MAX_ENTITIES - 1 - k));
    }
    assert_eq!(em.create_entity(), Err(EntityError::Exhausted));
}

#[test]
fn signatures_build() {
    let _e = Signature::empty();
    let _s = Signature::new([true; MAX_COMPONENTS]);
}
