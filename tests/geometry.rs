use tzextract::error::DocumentError;
use tzextract::geometry::{Matrix2D, Position, NoNonsenseF32};

fn s(v: f32) -> NoNonsenseF32 {
    NoNonsenseF32::from_bits(v.to_bits()).unwrap()
}

#[test]
fn scalar_round_trip_of_finite_values() {
    for v in [0.0f32, -0.0, 1.0, -1.5, 123.25, f32::MAX, f32::MIN, f32::MIN_POSITIVE] {
        let sc = NoNonsenseF32::from_bits(v.to_bits()).unwrap();
        assert_eq!(f32::from_bits(sc.to_bits()).to_bits(), v.to_bits());
    }
}

#[test]
fn scalar_rejects_non_finite_values() {
    for v in [f32::NAN, f32::INFINITY, f32::NEG_INFINITY] {
        assert_eq!(NoNonsenseF32::from_bits(v.to_bits()).unwrap_err(), DocumentError::InvalidNumber);
    }
}

#[test]
fn scalar_order_follows_values() {
    let vals = [-100.0f32, -1.0, -0.5, 0.0, 0.25, 1.0, 700.0];
    for w in vals.windows(2) {
        assert!(s(w[0]).key() < s(w[1]).key());
    }
    assert!(s(0.0).same_value(&s(-0.0)));
}

#[test]
fn scalar_negation() {
    assert_eq!(f32::from_bits(s(3.5).neg().to_bits()), -3.5);
    assert_eq!(s(3.5).neg().key(), -s(3.5).key());
}

#[test]
fn identity_maps_origin_to_origin() {
    let p = Matrix2D::identity().apply_to_origin();
    assert!(p.same_place(&Position::origin()));
    let id = Matrix2D::identity();
    assert_eq!(f32::from_bits(id.a0.to_bits()), 1.0);
    assert_eq!(f32::from_bits(id.b1.to_bits()), 1.0);
    assert_eq!(f32::from_bits(id.c2.to_bits()), 1.0);
}

#[test]
fn text_matrix_translation_is_the_anchor() {
    let t = Matrix2D::from_text_matrix(s(2.0), s(0.0), s(0.0), s(2.0), s(36.0), s(700.0));
    let p = t.apply_to_origin();
    assert_eq!(f32::from_bits(p.x.to_bits()), 36.0);
    assert_eq!(f32::from_bits(p.y.to_bits()), 700.0);
    let f = p.flipped();
    assert_eq!(f32::from_bits(f.y.to_bits()), -700.0);
}

#[test]
fn positions_order_by_y_then_x() {
    let a = Position { x: s(50.0), y: s(10.0) };
    let b = Position { x: s(10.0), y: s(20.0) };
    let c = Position { x: s(60.0), y: s(10.0) };
    assert!(a.precedes(&b));
    assert!(a.precedes(&c));
    assert!(!b.precedes(&a));
    assert!(!a.precedes(&a));
}
