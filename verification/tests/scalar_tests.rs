use nbody::body::{Body, Force, Pos};
use nbody::scalar::{Scalar, DIST, DT, G, HALF, MASS, ONE, SOFT, Z0};

fn s(v: f32) -> Scalar {
    Scalar::from_bits(v.to_bits())
}

fn f(v: Scalar) -> f32 {
    f32::from_bits(v.to_bits())
}

#[test]
fn constants_have_their_values() {
    assert_eq!(f32::from_bits(DIST), 100000.0);
    assert_eq!(f32::from_bits(Z0), 5000.0);
    assert_eq!(f32::from_bits(G), 6.674e-11);
    assert_eq!(f32::from_bits(MASS), 5.97e20);
    assert_eq!(f32::from_bits(SOFT), 1e-20);
    assert_eq!(f32::from_bits(DT), 1.0);
    assert_eq!(f32::from_bits(HALF), 0.5);
    assert_eq!(f32::from_bits(ONE), 1.0);
}

#[test]
fn zero_has_no_bit_set() {
    assert_eq!(Scalar::zero().to_bits(), 0);
    assert_eq!(f(Scalar::zero()), 0.0);
    assert_eq!(Scalar::from_bits(0x4049_0fdb).to_bits(), 0x4049_0fdb);
}

#[test]
fn from_index_small_numbers_are_exact() {
    assert_eq!(Scalar::from_index(0).to_bits(), 0);
    assert_eq!(Scalar::from_index(1).to_bits(), 0x3f80_0000);
    assert_eq!(Scalar::from_index(2).to_bits(), 0x4000_0000);
    assert_eq!(Scalar::from_index(3).to_bits(), 0x4040_0000);
    for k in 0..5000usize {
        assert_eq!(Scalar::from_index(k).to_bits(), (k as f32).to_bits());
    }
    assert_eq!(f(Scalar::from_index(65535)), 65535.0);
    assert_eq!(f(Scalar::from_index(16_777_215)), 16_777_215.0);
    assert_eq!(f(Scalar::from_index(16_777_216)), 16_777_216.0);
}

#[test]
fn from_index_rounds_to_nearest_even() {
    // 2^24 + 1 lies halfway between 2^24 and 2^24 + 2: the even significand wins.
    assert_eq!(Scalar::from_index(16_777_217).to_bits(), 0x4b80_0000);
    // 2^24 + 3 lies halfway between 2^24 + 2 and 2^24 + 4.
    assert_eq!(Scalar::from_index(16_777_219).to_bits(), 0x4b80_0002);
    assert_eq!(Scalar::from_index(16_777_218).to_bits(), 0x4b80_0001);
    // A carry out of the fraction reaches the exponent: 2^25 - 1 becomes 2^25.
    assert_eq!(Scalar::from_index(33_554_431).to_bits(), 0x4c00_0000);
    let mut k: usize = 16_000_000;
    while k < 4_000_000_000 {
        assert_eq!(Scalar::from_index(k).to_bits(), (k as f32).to_bits());
        k += 7_777_777;
    }
    for e in 0..usize::BITS {
        let p: usize = 1 << e;
        for k in [p - 1, p, p + 1, p + p / 2, p + p / 2 - 1, p - 1 + p] {
            assert_eq!(Scalar::from_index(k).to_bits(), (k as f32).to_bits());
        }
    }
    assert_eq!(Scalar::from_index(usize::MAX).to_bits(), (usize::MAX as f32).to_bits());
}

#[test]
fn pos_new_keeps_the_coordinates() {
    let p = Pos::new(s(1.5), s(-2.0), s(3.25));
    assert_eq!(f(p.x), 1.5);
    assert_eq!(f(p.y), -2.0);
    assert_eq!(f(p.z), 3.25);
}

#[test]
fn body_new_is_at_rest() {
    let b = Body::new();
    for v in [b.xvi, b.yvi, b.zvi, b.dpx, b.dpy, b.dpz] {
        assert_eq!(v.to_bits(), 0);
    }
}

#[test]
fn force_new_is_null() {
    let n = Force::new();
    assert_eq!((n.x.to_bits(), n.y.to_bits(), n.z.to_bits()), (0, 0, 0));
    let w = Force::new_with(s(1.0), s(2.0), s(3.0));
    assert_eq!((f(w.x), f(w.y), f(w.z)), (1.0, 2.0, 3.0));
}

#[test]
fn add_force_adds_componentwise() {
    let mut b = Body::new();
    b.xvi = s(1.0);
    b.yvi = s(2.5);
    b.zvi = s(-4.0);
    let (x, y, z) = b.add_force(&Force::new_with(s(0.5), s(0.25), s(1.0)));
    assert_eq!((f(x), f(y), f(z)), (1.5, 2.75, -3.0));
    // Single precision: 1e8 + 1 is not representable and rounds back to 1e8.
    b.xvi = s(1.0e8);
    let (x, _, _) = b.add_force(&Force::new_with(s(1.0), s(0.0), s(0.0)));
    assert_eq!(x.to_bits(), (1.0e8f32 + 1.0f32).to_bits());
}

#[test]
fn kick_sets_velocity_and_displacement() {
    let mut b = Body::new();
    b.xvi = s(1.0);
    b.dpx = s(9.0);
    b.kick(&Force::new_with(s(0.5), s(-0.25), s(2.0)));
    assert_eq!((f(b.xvi), f(b.yvi), f(b.zvi)), (1.5, -0.25, 2.0));
    assert_eq!((f(b.dpx), f(b.dpy), f(b.dpz)), (1.5, -0.25, 2.0));
}

#[test]
fn add_body_moves_by_the_displacement() {
    let mut p = Pos::new(s(10.0), s(20.0), s(30.0));
    let mut b = Body::new();
    b.xvi = s(100.0);
    b.dpx = s(1.0);
    b.dpy = s(-2.0);
    b.dpz = s(0.5);
    p.add_body(&b);
    assert_eq!((f(p.x), f(p.y), f(p.z)), (11.0, 18.0, 30.5));
}
