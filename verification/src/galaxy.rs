//! The state of a simulation: one position, one kinematic state and one mass
//! for each body, held in three arrays of equal length.

use crate::body::{Body, Pos};
use crate::scalar::Scalar;
use vstd::prelude::*;

verus! {

/// What a galaxy holds, as three sequences indexed by body.
pub struct State {
    pub poses: Seq<Pos>,
    pub bodies: Seq<Body>,
    pub masses: Seq<Scalar>,
}

impl State {
    /// The three sequences have one entry for each body.
    pub open spec fn wf(self) -> bool {
        self.poses.len() == self.bodies.len() && self.bodies.len() == self.masses.len()
    }

    /// The number of bodies.
    pub open spec fn size(self) -> nat {
        self.poses.len()
    }

    /// The state of `n` bodies in which every bit is clear.
    pub open spec fn zeroed(n: nat) -> State {
        State {
            poses: Seq::new(
                n,
                |i: int| Pos { x: Scalar { bits: 0 }, y: Scalar { bits: 0 }, z: Scalar { bits: 0 } },
            ),
            bodies: Seq::new(n, |i: int| Body::at_rest()),
            masses: Seq::new(n, |i: int| Scalar { bits: 0 }),
        }
    }
}

/// The bodies of a simulation.
pub struct Galaxy {
    pub(crate) poses: Vec<Pos>,
    pub(crate) bodies: Vec<Body>,
    pub(crate) masses: Vec<Scalar>,
}

impl View for Galaxy {
    type V = State;

    open(crate) spec fn view(&self) -> State {
        State { poses: self.poses@, bodies: self.bodies@, masses: self.masses@ }
    }
}

/// An array of `n` copies of `fill`.
pub fn alloc_data<T: Copy>(n: usize, fill: T) -> (data: Vec<T>)
    ensures
        data@ == Seq::new(n as nat, |i: int| fill),
{
    let mut data: Vec<T> = Vec::with_capacity(n);
    let mut i: usize = 0;
    while i < n
        invariant
            i <= n,
            data@ == Seq::new(i as nat, |k: int| fill),
        decreases n - i,
    {
        data.push(fill);
        i = i + 1;
        assert(data@ =~= Seq::new(i as nat, |k: int| fill));
    }
    data
}

impl Galaxy {
    /// The three arrays have one entry for each body.
    pub open spec fn wf(&self) -> bool {
        self@.wf()
    }

    /// A galaxy of `n` bodies in which every bit is clear.
    pub fn zeroed(n: usize) -> (galaxy: Galaxy)
        ensures
            galaxy.wf(),
            galaxy@ == State::zeroed(n as nat),
    {
        let zero = Scalar::zero();
        let galaxy = Galaxy {
            poses: alloc_data(n, Pos::new(zero, zero, zero)),
            bodies: alloc_data(n, Body::new()),
            masses: alloc_data(n, zero),
        };
        assert(galaxy@.poses =~= State::zeroed(n as nat).poses);
        assert(galaxy@.bodies =~= State::zeroed(n as nat).bodies);
        assert(galaxy@.masses =~= State::zeroed(n as nat).masses);
        galaxy
    }

    /// The number of bodies.
    pub fn size(&self) -> (n: usize)
        requires
            self.wf(),
        ensures
            n == self@.size(),
    {
        self.poses.len()
    }

    /// The position of body `i`.
    pub fn pos(&self, i: usize) -> (pos: Pos)
        requires
            self.wf(),
            i < self@.size(),
        ensures
            pos == self@.poses[i as int],
    {
        self.poses[i]
    }

    /// The kinematic state of body `i`.
    pub fn body(&self, i: usize) -> (body: Body)
        requires
            self.wf(),
            i < self@.size(),
        ensures
            body == self@.bodies[i as int],
    {
        self.bodies[i]
    }

    /// The mass of body `i`.
    pub fn mass(&self, i: usize) -> (mass: Scalar)
        requires
            self.wf(),
            i < self@.size(),
        ensures
            mass == self@.masses[i as int],
    {
        self.masses[i]
    }

    /// Replaces the position of body `i`.
    pub fn set_pos(&mut self, i: usize, pos: Pos)
        requires
            old(self).wf(),
            i < old(self)@.size(),
        ensures
            final(self).wf(),
            final(self)@ == (State { poses: old(self)@.poses.update(i as int, pos), ..old(self)@ }),
    {
        self.poses.set(i, pos);
    }

    /// Replaces the kinematic state of body `i`.
    pub fn set_body(&mut self, i: usize, body: Body)
        requires
            old(self).wf(),
            i < old(self)@.size(),
        ensures
            final(self).wf(),
            final(self)@ == (State {
                bodies: old(self)@.bodies.update(i as int, body),
                ..old(self)@
            }),
    {
        self.bodies.set(i, body);
    }

    /// Replaces the mass of body `i`.
    pub fn set_mass(&mut self, i: usize, mass: Scalar)
        requires
            old(self).wf(),
            i < old(self)@.size(),
        ensures
            final(self).wf(),
            final(self)@ == (State {
                masses: old(self)@.masses.update(i as int, mass),
                ..old(self)@
            }),
    {
        self.masses.set(i, mass);
    }
}

} // verus!
