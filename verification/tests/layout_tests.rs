use nbody::galaxy::{alloc_data, Galaxy};
use nbody::layout::{grid_side, initialize, load, place};
use nbody::scalar::{Scalar, DIST, MASS, Z0};

fn f(v: Scalar) -> f32 {
    f32::from_bits(v.to_bits())
}

#[test]
fn grid_side_is_the_least_root() {
    assert_eq!(grid_side(0), 0);
    assert_eq!(grid_side(1), 1);
    assert_eq!(grid_side(2), 2);
    assert_eq!(grid_side(4), 2);
    assert_eq!(grid_side(5), 3);
    assert_eq!(grid_side(9), 3);
    assert_eq!(grid_side(10), 4);
    assert_eq!(grid_side(65536), 256);
    assert_eq!(grid_side(65537), 257);
    for n in 1..3000usize {
        let s = grid_side(n);
        assert!(s * s >= n && (s - 1) * (s - 1) < n);
    }
}

#[test]
fn place_follows_the_grid_formula() {
    let p = place(7, 3);
    assert_eq!(f(p.x), 100000.0);
    assert_eq!(f(p.y), 700000.0);
    assert_eq!(f(p.z), 5000.0);
    let q = place(65535, 256);
    assert_eq!(f(q.x), 255.0 * 100000.0);
    assert_eq!(q.y.to_bits(), (100000.0f32 * 65535.0f32).to_bits());
}

#[test]
fn alloc_data_fills_every_entry() {
    let v = alloc_data(5, 7u8);
    assert_eq!(v, vec![7u8; 5]);
    let e: Vec<u32> = alloc_data(0, 1u32);
    assert!(e.is_empty());
}

#[test]
fn zeroed_galaxy_has_no_bit_set() {
    let g = Galaxy::zeroed(3);
    assert_eq!(g.size(), 3);
    for i in 0..3 {
        let p = g.pos(i);
        let b = g.body(i);
        assert_eq!((p.x.to_bits(), p.y.to_bits(), p.z.to_bits()), (0, 0, 0));
        for v in [b.xvi, b.yvi, b.zvi, b.dpx, b.dpy, b.dpz] {
            assert_eq!(v.to_bits(), 0);
        }
        assert_eq!(g.mass(i).to_bits(), 0);
    }
    assert_eq!(Galaxy::zeroed(0).size(), 0);
}

#[test]
fn accessors_read_what_was_written() {
    let mut g = Galaxy::zeroed(2);
    let mut p = g.pos(1);
    p.x = Scalar::from_bits(DIST);
    g.set_pos(1, p);
    let mut b = g.body(0);
    b.dpz = Scalar::from_bits(Z0);
    g.set_body(0, b);
    g.set_mass(1, Scalar::from_bits(MASS));
    assert_eq!(g.pos(1).x.to_bits(), DIST);
    assert_eq!(g.pos(0).x.to_bits(), 0);
    assert_eq!(g.body(0).dpz.to_bits(), Z0);
    assert_eq!(g.body(1).dpz.to_bits(), 0);
    assert_eq!(g.mass(1).to_bits(), MASS);
    assert_eq!(g.mass(0).to_bits(), 0);
    assert_eq!(g.size(), 2);
}

#[test]
fn initialize_four_bodies() {
    let g = initialize(4);
    assert_eq!(g.size(), 4);
    let d = 100000.0f32;
    let expected = [(0.0, 0.0), (d, d), (0.0, 2.0 * d), (d, 3.0 * d)];
    for i in 0..4 {
        let p = g.pos(i);
        assert_eq!((f(p.x), f(p.y), f(p.z)), (expected[i].0, expected[i].1, 5000.0));
        assert_eq!(f(g.mass(i)), 5.97e20);
        let b = g.body(i);
        for v in [b.xvi, b.yvi, b.zvi, b.dpx, b.dpy, b.dpz] {
            assert_eq!(v.to_bits(), 0);
        }
    }
}

#[test]
fn initialize_matches_the_formula_in_single_precision() {
    let n = 1000usize;
    let g = initialize(n);
    let s = 32.0f32;
    for i in 0..n {
        let p = g.pos(i);
        assert_eq!(p.x.to_bits(), (((i as f32) % s) * 100000.0f32).to_bits());
        assert_eq!(p.y.to_bits(), (100000.0f32 * (i as f32)).to_bits());
        assert_eq!(p.z.to_bits(), Z0);
        assert_eq!(g.mass(i).to_bits(), MASS);
    }
}

#[test]
fn initialize_without_bodies_is_empty() {
    assert_eq!(initialize(0).size(), 0);
}

#[test]
fn load_overwrites_all_three_arrays() {
    let mut g = Galaxy::zeroed(3);
    let mut b = g.body(2);
    b.xvi = Scalar::from_bits(DIST);
    g.set_body(2, b);
    g.set_mass(0, Scalar::from_bits(Z0));
    load(&mut g);
    let fresh = initialize(3);
    for i in 0..3 {
        assert_eq!(g.pos(i), fresh.pos(i));
        assert_eq!(g.body(i), fresh.body(i));
        assert_eq!(g.mass(i), fresh.mass(i));
    }
    assert_eq!(g.body(2).xvi.to_bits(), 0);
}
