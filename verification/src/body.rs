//! The per-body records: position, kinematic state and force.

use crate::scalar::Scalar;
use vstd::prelude::*;

verus! {

/// Where a body is.
#[derive(Clone, Copy, Debug, PartialEq, Eq, Structural)]
pub struct Pos {
    pub x: Scalar,
    pub y: Scalar,
    pub z: Scalar,
}

/// A force on a body, or a change of velocity derived from one.
#[derive(Clone, Copy, Debug, PartialEq, Eq, Structural)]
pub struct Force {
    pub x: Scalar,
    pub y: Scalar,
    pub z: Scalar,
}

/// How a body moves: its velocity, and the displacement of the current step.
#[derive(Clone, Copy, Debug, PartialEq, Eq, Structural)]
pub struct Body {
    pub xvi: Scalar,
    pub yvi: Scalar,
    pub zvi: Scalar,
    pub dpx: Scalar,
    pub dpy: Scalar,
    pub dpz: Scalar,
}

impl Pos {
    pub fn new(x: Scalar, y: Scalar, z: Scalar) -> (r: Pos)
        ensures
            r == (Pos { x, y, z }),
    {
        Pos { x, y, z }
    }

    /// This position after the body's displacement has been applied.
    pub open spec fn moved(self, body: Body) -> Pos {
        Pos { x: self.x.sum(body.dpx), y: self.y.sum(body.dpy), z: self.z.sum(body.dpz) }
    }

    /// Applies the displacement of `body` to this position.
    pub fn add_body(&mut self, body: &Body)
        ensures
            *final(self) == old(self).moved(*body),
    {
        self.x = self.x.plus(body.dpx);
        self.y = self.y.plus(body.dpy);
        self.z = self.z.plus(body.dpz);
    }
}

impl Body {
    /// The state of a body at rest.
    pub open spec fn at_rest() -> Body {
        Body {
            xvi: Scalar { bits: 0 },
            yvi: Scalar { bits: 0 },
            zvi: Scalar { bits: 0 },
            dpx: Scalar { bits: 0 },
            dpy: Scalar { bits: 0 },
            dpz: Scalar { bits: 0 },
        }
    }

    pub fn new() -> (r: Body)
        ensures
            r == Body::at_rest(),
    {
        let zero = Scalar::zero();
        Body { xvi: zero, yvi: zero, zvi: zero, dpx: zero, dpy: zero, dpz: zero }
    }

    /// The velocity that results from adding `force` to the current one.
    pub open spec fn velocity_after(self, force: Force) -> (Scalar, Scalar, Scalar) {
        (self.xvi.sum(force.x), self.yvi.sum(force.y), self.zvi.sum(force.z))
    }

    /// The state after `force` has been added to the velocity: the new
    /// velocity, and as displacement that velocity times the step duration.
    pub open spec fn kicked(self, force: Force) -> Body {
        let v = self.velocity_after(force);
        let dt = Scalar { bits: crate::scalar::DT };
        Body {
            xvi: v.0,
            yvi: v.1,
            zvi: v.2,
            dpx: v.0.product(dt),
            dpy: v.1.product(dt),
            dpz: v.2.product(dt),
        }
    }

    pub fn add_force(&self, force: &Force) -> (r: (Scalar, Scalar, Scalar))
        ensures
            r == self.velocity_after(*force),
    {
        (self.xvi.plus(force.x), self.yvi.plus(force.y), self.zvi.plus(force.z))
    }

    /// Adds `force` to the velocity and derives the displacement of the step.
    pub fn kick(&mut self, force: &Force)
        ensures
            *final(self) == old(self).kicked(*force),
    {
        let (dvx, dvy, dvz) = self.add_force(force);
        let dt = Scalar::from_bits(crate::scalar::DT);
        self.xvi = dvx;
        self.yvi = dvy;
        self.zvi = dvz;
        self.dpx = dvx.times(dt);
        self.dpy = dvy.times(dt);
        self.dpz = dvz.times(dt);
    }
}

impl Force {
    /// The null force.
    pub open spec fn none() -> Force {
        Force { x: Scalar { bits: 0 }, y: Scalar { bits: 0 }, z: Scalar { bits: 0 } }
    }

    pub fn new() -> (r: Force)
        ensures
            r == Force::none(),
    {
        let zero = Scalar::zero();
        Force { x: zero, y: zero, z: zero }
    }

    pub fn new_with(x: Scalar, y: Scalar, z: Scalar) -> (r: Force)
        ensures
            r == (Force { x, y, z }),
    {
        Force { x, y, z }
    }
}

} // verus!
