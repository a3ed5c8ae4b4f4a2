use boids::vec::Vector2;

/// A length in pixels, as world units (thousandths of a pixel).
fn milli(v: f32) -> i64 {
    (v * 1000.0).round() as i64
}

#[test]
fn new_test() {
    let v = Vector2::new(32, 28);
    assert_eq!(v.x, 32);
    assert_eq!(v.y, 28);
}

#[test]
fn eq_test() {
    let x = 11;
    let y = -3;
    let input = Vector2::new(x, y);
    let input_2 = Vector2::new(x, y);
    let input_reversed = Vector2::new(y, x);
    assert_eq!(input, input_2);
    assert_ne!(input, input_reversed);
}

#[test]
fn mul_vec_vec_test() {
    let x = 11;
    let y = -3;
    let input = Vector2::new(x, y);
    let input_2 = Vector2::new(y, x);
    let outcome = Vector2::new(x * y, y * x);
    let result = input.mul(input_2);
    let result_reversed = input_2.mul(input);
    assert_eq!(result, outcome);
    assert_eq!(result_reversed, outcome);
}

#[test]
fn sub_vec() {
    let x = 11;
    let y = -3;
    let input = Vector2::new(x, y);
    let input_reversed = Vector2::new(y, x);
    {
        let result_vector = input.sub(input_reversed);
        let result_vector_manual = Vector2::new(x - y, y - x);
        assert_eq!(result_vector, result_vector_manual);
    }
    {
        let result_vector = input_reversed.sub(input);
        let result_vector_manual = Vector2::new(y - x, x - y);
        assert_eq!(result_vector, result_vector_manual);
    }
}

#[test]
fn mul_vec_scalar() {
    let x = 11;
    let y = -3;
    let scalar = 3;
    let input = Vector2::new(x, y);
    let result = input.mul_scalar(scalar);
    let result_vector = Vector2::new(x * scalar, y * scalar);
    assert_eq!(result, result_vector);
}

#[test]
fn dot_product() {
    let x = 2;
    let y = 3;
    let input = Vector2::new(x, y);
    let dot = input.dot(input);
    assert_eq!(dot, 13);
}

#[test]
fn div_vec() {
    // Fixed point in thousandths: the quotient is scaled before dividing.
    let x = milli(2.3);
    let y = milli(3.12);
    let input = Vector2::new(x, y);
    let input_2 = Vector2::new(x * 2, y * 2);
    let dot = input.mul_scalar(1000).div(input_2);
    assert_eq!(dot, Vector2::new(milli(0.5), milli(0.5)));
}

#[test]
fn distance() {
    let x = milli(2.3);
    let y = milli(3.12);
    let input = Vector2::new(x, y);
    let input_2 = Vector2::new(x, y);
    assert_eq!(Vector2::new(milli(0.0), milli(0.0)), Vector2::distance(input, input_2));
}

#[test]
fn div_scalar() {
    let x = milli(2.3);
    let y = milli(3.12);
    let input = Vector2::new(x, y);
    let dot = input.div_scalar(2);
    assert_eq!(dot, Vector2::new(milli(1.15), milli(1.56)));
}

#[test]
fn div_rounds_toward_zero() {
    let v = Vector2::new(-7, 7);
    assert_eq!(v.div_scalar(2), Vector2::new(-3, 3));
    assert_eq!(v.div_scalar(-2), Vector2::new(3, -3));
    assert_eq!(v.div(Vector2::new(-7, 7)), Vector2::new(1, 1));
    assert_eq!(Vector2::new(i64::MIN, 5).div_scalar(i64::MIN), Vector2::new(1, 0));
}

#[test]
fn magnitude_of_three_four_is_five() {
    let v = Vector2::new(3, 4);
    assert_eq!(v.calc_magnitude(), 5);
    assert_eq!(v.ceil_magnitude(), 5);
    assert_eq!(v.length_sq(), 25);
    let w = Vector2::new(1, 1);
    assert_eq!(w.calc_magnitude(), 1);
    assert_eq!(w.ceil_magnitude(), 2);
}

#[test]
fn set_magnitude_scales_without_exceeding() {
    let mut v = Vector2::new(3, 4);
    v.set_magnitude(10);
    assert_eq!(v, Vector2::new(6, 8));
    let mut w = Vector2::new(1, 1);
    w.set_magnitude(6);
    assert_eq!(w, Vector2::new(3, 3));
    assert!(w.length_sq() <= 36);
    let mut z = Vector2::zero();
    z.set_magnitude(5);
    assert_eq!(z, Vector2::zero());
}

#[test]
fn limit_clamps_only_long_vectors() {
    let mut v = Vector2::new(30, 40);
    v.limit(10);
    assert_eq!(v, Vector2::new(6, 8));
    let mut w = Vector2::new(3, 4);
    w.limit(10);
    assert_eq!(w, Vector2::new(3, 4));
}

#[test]
fn reflect_flips_component_along_normal() {
    let v = Vector2::new(5, -2);
    assert_eq!(v.reflect(Vector2::new(-1, 0)), Vector2::new(-5, -2));
    assert_eq!(v.reflect(Vector2::new(0, 1)), Vector2::new(5, 2));
}

#[test]
fn in_between_is_strict() {
    assert!(Vector2::in_between(Vector2::new(2, -2), 3));
    assert!(!Vector2::in_between(Vector2::new(3, 0), 3));
}

#[test]
fn random_stays_in_range() {
    let mut xs = vec![];
    for _ in 0..100 {
        xs.push(Vector2::random(-1000, 1000).x);
    }
    assert!(xs.iter().any(|x| *x != xs[0]));
    for _ in 0..100 {
        let v = Vector2::random(-5, 5);
        assert!(-5 <= v.x && v.x < 5 && -5 <= v.y && v.y < 5);
        let w = Vector2::random_from_vec(Vector2::new(10, 20), Vector2::new(-3, -1));
        assert!(10 <= w.x && w.x < 20 && -3 <= w.y && w.y < -1);
    }
}

#[test]
fn normalize_to_unit_in_thousandths() {
    let mut v = Vector2::new(30, 40);
    v.normalize();
    assert_eq!(v, Vector2::new(600, 800));
    let mut z = Vector2::zero();
    z.normalize();
    assert_eq!(z, Vector2::zero());
}
