//! The initial configuration: bodies at rest, of one mass, placed on a
//! plane by their index alone.

use crate::body::{Body, Pos};
use crate::galaxy::{Galaxy, State};
use crate::scalar::{index_bits, Scalar, DIST, MASS, Z0};
use vstd::prelude::*;

verus! {

/// `s` is the least whole number whose square is at least `n`.
pub open spec fn is_side(n: nat, s: nat) -> bool {
    s * s >= n && (s == 0 || (s - 1) * (s - 1) < n)
}

/// The side of the grid for `n` bodies: the least whole number whose square
/// is at least `n`.
pub open spec fn side(n: nat) -> nat {
    choose|s: nat| is_side(n, s)
}

/// Only one number is the least whose square is at least `n`.
pub proof fn lemma_side_unique(n: nat, s: nat)
    requires
        is_side(n, s),
    ensures
        side(n) == s,
{
    let t = side(n);
    assert(is_side(n, t));
    if t < s {
        assert(t * t <= (s - 1) * (s - 1)) by (nonlinear_arith)
            requires
                0 <= t <= s - 1,
        ;
    } else if s < t {
        assert(s * s <= (t - 1) * (t - 1)) by (nonlinear_arith)
            requires
                0 <= s <= t - 1,
        ;
    }
}

/// The single-precision number nearest to the whole number `k`.
pub open spec fn index_scalar(k: nat) -> Scalar {
    Scalar { bits: index_bits(k) as u32 }
}

/// Where body `i` starts on a grid of side `s`: at `(i mod s) * DIST`
/// along x, `DIST * i` along y, and `Z0` along z.
pub open spec fn grid_pos(i: nat, s: nat) -> Pos
    recommends
        s > 0,
{
    Pos {
        x: index_scalar(i % s).product(Scalar { bits: DIST }),
        y: Scalar { bits: DIST }.product(index_scalar(i)),
        z: Scalar { bits: Z0 },
    }
}

/// The initial configuration of `n` bodies.
pub open spec fn loaded(n: nat) -> State {
    State {
        poses: Seq::new(n, |i: int| grid_pos(i as nat, side(n))),
        bodies: Seq::new(n, |i: int| Body::at_rest()),
        masses: Seq::new(n, |i: int| Scalar { bits: MASS }),
    }
}

/// The side of the grid for `n` bodies.
pub fn grid_side(n: usize) -> (s: usize)
    ensures
        s == side(n as nat),
        n > 0 ==> s > 0,
{
    let mut s: usize = 0;
    while (s as u128) * (s as u128) < n as u128
        invariant
            s == 0 || (s - 1) * (s - 1) < n,
            s <= n,
            s * s <= u128::MAX,
        decreases n - s,
    {
        proof {
            assert(s < n) by (nonlinear_arith)
                requires
                    s * s < n,
                    s >= 0,
            ;
            assert((s + 1) * (s + 1) <= u128::MAX) by (nonlinear_arith)
                requires
                    0 <= s + 1 <= 0xffff_ffff_ffff_ffff,
            ;
        }
        s = s + 1;
    }
    proof {
        lemma_side_unique(n as nat, s as nat);
    }
    s
}

/// Where body `i` starts on a grid of side `s`.
pub fn place(i: usize, s: usize) -> (pos: Pos)
    requires
        s > 0,
    ensures
        pos == grid_pos(i as nat, s as nat),
{
    let dist = Scalar::from_bits(DIST);
    Pos::new(
        Scalar::from_index(i % s).times(dist),
        dist.times(Scalar::from_index(i)),
        Scalar::from_bits(Z0),
    )
}

/// Overwrites the galaxy with the initial configuration of as many bodies
/// as it holds.
pub fn load(galaxy: &mut Galaxy)
    requires
        old(galaxy).wf(),
    ensures
        final(galaxy).wf(),
        final(galaxy)@ == loaded(old(galaxy)@.size()),
{
    let n = galaxy.size();
    let s = grid_side(n);
    let mut i: usize = 0;
    while i < n
        invariant
            i <= n,
            n > 0 ==> s > 0,
            s == side(n as nat),
            galaxy.wf(),
            galaxy@.size() == n,
            forall|k: int| 0 <= k < i ==> galaxy@.poses[k] == grid_pos(k as nat, s as nat),
            forall|k: int| 0 <= k < i ==> galaxy@.bodies[k] == Body::at_rest(),
            forall|k: int| 0 <= k < i ==> galaxy@.masses[k] == (Scalar { bits: MASS }),
        decreases n - i,
    {
        galaxy.poses.set(i, place(i, s));
        galaxy.bodies.set(i, Body::new());
        galaxy.masses.set(i, Scalar::from_bits(MASS));
        i = i + 1;
    }
    proof {
        assert(galaxy@.poses =~= loaded(n as nat).poses);
        assert(galaxy@.bodies =~= loaded(n as nat).bodies);
        assert(galaxy@.masses =~= loaded(n as nat).masses);
    }
}

/// The initial configuration of `n` bodies.
pub fn initialize(n: usize) -> (galaxy: Galaxy)
    ensures
        galaxy.wf(),
        galaxy@ == loaded(n as nat),
{
    let mut galaxy = Galaxy::zeroed(n);
    load(&mut galaxy);
    galaxy
}

} // verus!
