//! The simulation engine: all-pairs force evaluation, velocity update and
//! position integration, repeated for a number of steps.
//!
//! A step has three phases, and none starts before the one before it has
//! ended for every body: the forces are evaluated from the positions and
//! masses as they stand when the step begins, then every velocity and
//! displacement is derived, then every position is moved.

use crate::body::{Body, Force, Pos};
use crate::galaxy::{Galaxy, State};
use crate::partition::{
    assembled, covers, lemma_assembled_whole, lemma_chunk_bounded, partition, parts_of, Chunk,
};
use crate::scalar::{Scalar, DT, G, HALF, ONE, SOFT};
use rayon::iter::{IntoParallelRefIterator, ParallelIterator};
use vstd::prelude::*;

verus! {

/// What the force evaluation reads of one body: where it is and its mass.
#[derive(Clone, Copy, Debug, PartialEq, Eq, Structural)]
pub struct Source {
    pub pos: Pos,
    pub mass: Scalar,
}

/// The positions and masses of a state, body by body.
pub open spec fn sources_of(poses: Seq<Pos>, masses: Seq<Scalar>) -> Seq<Source> {
    Seq::new(
        if poses.len() <= masses.len() {
            poses.len()
        } else {
            masses.len()
        },
        |i: int| Source { pos: poses[i], mass: masses[i] },
    )
}

/// The inverse cube of the softened distance between two positions whose
/// coordinates differ by `dx`, `dy` and `dz`: the reciprocal of the square
/// root of `dx² + dy² + dz² + SOFT`, multiplied by itself twice.
pub open spec fn inverse_cube(dx: Scalar, dy: Scalar, dz: Scalar) -> Scalar {
    let squared = dx.product(dx).sum(dy.product(dy)).sum(dz.product(dz)).sum(Scalar { bits: SOFT });
    let inverse = Scalar { bits: ONE }.quotient(squared.root());
    inverse.product(inverse).product(inverse)
}

/// `acc` with the pull of `source` on `target` added to it: the offset from
/// `target` to `source`, times `G` and the two masses, times the inverse cube
/// of the softened distance.
pub open spec fn pulled(acc: Force, target: Source, source: Source) -> Force {
    let dx = source.pos.x.difference(target.pos.x);
    let dy = source.pos.y.difference(target.pos.y);
    let dz = source.pos.z.difference(target.pos.z);
    let d32 = inverse_cube(dx, dy, dz);
    let f = Scalar { bits: G }.product(target.mass).product(source.mass);
    Force {
        x: acc.x.sum(f.product(dx).product(d32)),
        y: acc.y.sum(f.product(dy).product(d32)),
        z: acc.z.sum(f.product(dz).product(d32)),
    }
}

/// The pulls of the first `k` sources on body `j`, summed in the order of
/// their indices, starting from the null force.
pub open spec fn net_force(sources: Seq<Source>, j: int, k: nat) -> Force
    decreases k,
{
    if k == 0 {
        Force::none()
    } else {
        pulled(net_force(sources, j, (k - 1) as nat), sources[j], sources[k - 1])
    }
}

/// A force on a body of mass `mass`, as the change of velocity over one
/// step: the force divided by the mass, times one half, times the step
/// duration.
pub open spec fn scaled(force: Force, mass: Scalar) -> Force {
    let half = Scalar { bits: HALF };
    let dt = Scalar { bits: DT };
    Force {
        x: force.x.quotient(mass).product(half).product(dt),
        y: force.y.quotient(mass).product(half).product(dt),
        z: force.z.quotient(mass).product(half).product(dt),
    }
}

/// The change of velocity of body `j` over one step: the pulls of all
/// sources on it, itself included, summed and scaled.
pub open spec fn kick_of(sources: Seq<Source>, j: int) -> Force {
    scaled(net_force(sources, j, sources.len()), sources[j].mass)
}

/// The changes of velocity of the bodies from `lo` up to `hi`.
pub open spec fn kicks_of(sources: Seq<Source>, lo: int, hi: int) -> Seq<Force> {
    Seq::new((hi - lo) as nat, |j: int| kick_of(sources, lo + j))
}

/// The state after one step.
pub open spec fn stepped(s: State) -> State {
    let sources = sources_of(s.poses, s.masses);
    State {
        poses: Seq::new(
            s.poses.len(),
            |j: int| s.poses[j].moved(s.bodies[j].kicked(kick_of(sources, j))),
        ),
        bodies: Seq::new(s.bodies.len(), |j: int| s.bodies[j].kicked(kick_of(sources, j))),
        masses: s.masses,
    }
}

/// The state after `steps` steps.
pub open spec fn evolved(s: State, steps: nat) -> State
    decreases steps,
{
    if steps == 0 {
        s
    } else {
        stepped(evolved(s, (steps - 1) as nat))
    }
}

/// Adds the pull of `source` on `target` to `acc`.
pub fn pull(acc: &Force, target: &Source, source: &Source) -> (r: Force)
    ensures
        r == pulled(*acc, *target, *source),
{
    let dx = source.pos.x.minus(target.pos.x);
    let dy = source.pos.y.minus(target.pos.y);
    let dz = source.pos.z.minus(target.pos.z);
    let dsquared = dx.times(dx).plus(dy.times(dy)).plus(dz.times(dz)).plus(
        Scalar::from_bits(SOFT),
    );
    let d12 = Scalar::from_bits(ONE).over(dsquared.sqrt());
    let d32 = d12.times(d12).times(d12);
    let f = Scalar::from_bits(G).times(target.mass).times(source.mass);
    Force::new_with(
        acc.x.plus(f.times(dx).times(d32)),
        acc.y.plus(f.times(dy).times(d32)),
        acc.z.plus(f.times(dz).times(d32)),
    )
}

/// The change of velocity of body `j` over one step.
pub fn kick(sources: &Vec<Source>, j: usize) -> (r: Force)
    requires
        j < sources@.len(),
    ensures
        r == kick_of(sources@, j as int),
{
    let target = sources[j];
    let mut force = Force::new();
    let mut i: usize = 0;
    while i < sources.len()
        invariant
            i <= sources@.len(),
            j < sources@.len(),
            target == sources@[j as int],
            force == net_force(sources@, j as int, i as nat),
        decreases sources@.len() - i,
    {
        force = pull(&force, &target, &sources[i]);
        i = i + 1;
    }
    let half = Scalar::from_bits(HALF);
    let dt = Scalar::from_bits(DT);
    Force::new_with(
        force.x.over(target.mass).times(half).times(dt),
        force.y.over(target.mass).times(half).times(dt),
        force.z.over(target.mass).times(half).times(dt),
    )
}

/// The changes of velocity of the bodies of one chunk.
pub fn chunk_kicks(sources: &Vec<Source>, chunk: &Chunk) -> (r: Vec<Force>)
    requires
        chunk.lo <= chunk.hi <= sources@.len(),
    ensures
        r@ == kicks_of(sources@, chunk.lo as int, chunk.hi as int),
{
    let mut kicks: Vec<Force> = Vec::with_capacity(chunk.hi - chunk.lo);
    let mut j: usize = chunk.lo;
    while j < chunk.hi
        invariant
            chunk.lo <= j <= chunk.hi <= sources@.len(),
            kicks@ == kicks_of(sources@, chunk.lo as int, j as int),
        decreases chunk.hi - j,
    {
        let k = kick(sources, j);
        kicks.push(k);
        j = j + 1;
        assert(kicks@ =~= kicks_of(sources@, chunk.lo as int, j as int));
    }
    kicks
}

/// Calls `itertools::zip` on the positions and the masses. Not proved: that
/// it walks the two arrays in lock step and ends with the shorter one, so
/// that entry `i` of the result holds position `i` and mass `i`.
#[verifier::external_body]
#[allow(deprecated)]
fn snapshot(poses: &Vec<Pos>, masses: &Vec<Scalar>) -> (sources: Vec<Source>)
    ensures
        sources@ == sources_of(poses@, masses@),
{
    itertools::zip(poses, masses).map(|(pos, mass)| Source { pos: *pos, mass: *mass }).collect()
}

/// Calls `par_iter`, `map` and `collect` of rayon. Not proved: that `job`
/// is called on each chunk and on nothing else, possibly on several threads
/// at once, and that the vector collected holds what the calls returned, in
/// the order of the chunks.
#[verifier::external_body]
fn for_each_chunk<T: Send, F: Fn(&Chunk) -> Vec<T> + Sync + Send>(chunks: &Vec<Chunk>, job: F) -> (parts:
    Vec<Vec<T>>)
    requires
        forall|k: int| 0 <= k < chunks@.len() ==> call_requires(job, (&#[trigger] chunks@[k],)),
    ensures
        parts@.len() == chunks@.len(),
        forall|k: int|
            0 <= k < chunks@.len() ==> call_ensures(job, (&#[trigger] chunks@[k],), parts@[k]),
{
    chunks.par_iter().map(job).collect()
}

/// The parts of an array that was computed chunk by chunk, joined in the
/// order of the chunks.
fn join<T: Copy>(parts: &Vec<Vec<T>>) -> (joined: Vec<T>)
    ensures
        joined@ == assembled(Seq::new(parts@.len(), |k: int| parts@[k]@), parts@.len()),
{
    let ghost views = Seq::new(parts@.len(), |k: int| parts@[k]@);
    let mut joined: Vec<T> = Vec::new();
    let mut k: usize = 0;
    while k < parts.len()
        invariant
            k <= parts@.len(),
            views == Seq::new(parts@.len(), |k: int| parts@[k]@),
            joined@ == assembled(views, k as nat),
        decreases parts@.len() - k,
    {
        let part = &parts[k];
        let mut i: usize = 0;
        while i < part.len()
            invariant
                i <= part@.len(),
                joined@ == assembled(views, k as nat) + part@.subrange(0, i as int),
            decreases part@.len() - i,
        {
            joined.push(part[i]);
            i = i + 1;
            assert(joined@ =~= assembled(views, k as nat) + part@.subrange(0, i as int));
        }
        assert(part@.subrange(0, i as int) =~= views[k as int]);
        k = k + 1;
    }
    joined
}

/// Runs `job` on every chunk and joins what the jobs return. Where each job
/// returns the entries of `whole` at the indices of its chunk, the result
/// is `whole`.
fn gather<T: Copy + Send, F: Fn(&Chunk) -> Vec<T> + Sync + Send>(
    chunks: &Vec<Chunk>,
    job: F,
    Ghost(whole): Ghost<Seq<T>>,
) -> (r: Vec<T>)
    requires
        covers(chunks@, whole.len()),
        forall|chunk: &Chunk|
            chunk.lo <= chunk.hi <= whole.len() ==> call_requires(job, (chunk,)),
        forall|chunk: &Chunk, part: Vec<T>|
            call_ensures(job, (chunk,), part) ==> part@ == whole.subrange(
                chunk.lo as int,
                chunk.hi as int,
            ),
    ensures
        r@ == whole,
{
    assert forall|k: int| 0 <= k < chunks@.len() implies call_requires(
        job,
        (&#[trigger] chunks@[k],),
    ) by {
        lemma_chunk_bounded(chunks@, whole.len(), k);
    }
    let parts = for_each_chunk(chunks, job);
    let joined = join(&parts);
    proof {
        assert(Seq::new(parts@.len(), |k: int| parts@[k]@) =~= parts_of(whole, chunks@));
        lemma_assembled_whole(whole, chunks@);
    }
    joined
}

/// The kinematic states after each body has received its change of velocity.
pub open spec fn kicked_all(bodies: Seq<Body>, kicks: Seq<Force>) -> Seq<Body> {
    Seq::new(bodies.len(), |j: int| bodies[j].kicked(kicks[j]))
}

/// The positions after each body has been moved by its displacement.
pub open spec fn moved_all(poses: Seq<Pos>, bodies: Seq<Body>) -> Seq<Pos> {
    Seq::new(poses.len(), |j: int| poses[j].moved(bodies[j]))
}

/// The new kinematic states of the bodies of one chunk.
pub fn chunk_bodies(bodies: &Vec<Body>, kicks: &Vec<Force>, chunk: &Chunk) -> (r: Vec<Body>)
    requires
        bodies@.len() == kicks@.len(),
        chunk.lo <= chunk.hi <= bodies@.len(),
    ensures
        r@ == kicked_all(bodies@, kicks@).subrange(chunk.lo as int, chunk.hi as int),
{
    let mut part: Vec<Body> = Vec::with_capacity(chunk.hi - chunk.lo);
    let mut j: usize = chunk.lo;
    while j < chunk.hi
        invariant
            bodies@.len() == kicks@.len(),
            chunk.lo <= j <= chunk.hi <= bodies@.len(),
            part@ == kicked_all(bodies@, kicks@).subrange(chunk.lo as int, j as int),
        decreases chunk.hi - j,
    {
        let mut body = bodies[j];
        body.kick(&kicks[j]);
        part.push(body);
        j = j + 1;
        assert(part@ =~= kicked_all(bodies@, kicks@).subrange(chunk.lo as int, j as int));
    }
    part
}

/// The new positions of the bodies of one chunk.
pub fn chunk_poses(poses: &Vec<Pos>, bodies: &Vec<Body>, chunk: &Chunk) -> (r: Vec<Pos>)
    requires
        poses@.len() == bodies@.len(),
        chunk.lo <= chunk.hi <= poses@.len(),
    ensures
        r@ == moved_all(poses@, bodies@).subrange(chunk.lo as int, chunk.hi as int),
{
    let mut part: Vec<Pos> = Vec::with_capacity(chunk.hi - chunk.lo);
    let mut j: usize = chunk.lo;
    while j < chunk.hi
        invariant
            poses@.len() == bodies@.len(),
            chunk.lo <= j <= chunk.hi <= poses@.len(),
            part@ == moved_all(poses@, bodies@).subrange(chunk.lo as int, j as int),
        decreases chunk.hi - j,
    {
        let mut pos = poses[j];
        pos.add_body(&bodies[j]);
        part.push(pos);
        j = j + 1;
        assert(part@ =~= moved_all(poses@, bodies@).subrange(chunk.lo as int, j as int));
    }
    part
}

/// Phase one of a step: the change of velocity of every body, each chunk
/// evaluated as one job.
fn evaluate(sources: &Vec<Source>, chunks: &Vec<Chunk>) -> (kicks: Vec<Force>)
    requires
        covers(chunks@, sources@.len()),
    ensures
        kicks@ == kicks_of(sources@, 0, sources@.len() as int),
{
    let ghost whole = kicks_of(sources@, 0, sources@.len() as int);
    assert forall|k: int| 0 <= k < chunks@.len() implies (#[trigger] chunks@[k]).lo <= chunks@[k].hi
        <= sources@.len() by {
        lemma_chunk_bounded(chunks@, sources@.len(), k);
    }
    if chunks.len() == 1 {
        let kicks = chunk_kicks(sources, &chunks[0]);
        assert(kicks@ =~= whole);
        kicks
    } else {
        let job = |chunk: &Chunk| -> (part: Vec<Force>)
            requires
                chunk.lo <= chunk.hi <= sources@.len(),
            ensures
                part@ == kicks_of(sources@, 0, sources@.len() as int).subrange(
                    chunk.lo as int,
                    chunk.hi as int,
                ),
            {
                let part = chunk_kicks(sources, chunk);
                assert(part@ =~= kicks_of(sources@, 0, sources@.len() as int).subrange(
                    chunk.lo as int,
                    chunk.hi as int,
                ));
                part
            };
        gather(chunks, job, Ghost(whole))
    }
}

/// Phase two of a step: the new kinematic state of every body.
fn derive(bodies: &Vec<Body>, kicks: &Vec<Force>, chunks: &Vec<Chunk>) -> (r: Vec<Body>)
    requires
        bodies@.len() == kicks@.len(),
        covers(chunks@, bodies@.len()),
    ensures
        r@ == kicked_all(bodies@, kicks@),
{
    let ghost whole = kicked_all(bodies@, kicks@);
    assert forall|k: int| 0 <= k < chunks@.len() implies (#[trigger] chunks@[k]).lo <= chunks@[k].hi
        <= bodies@.len() by {
        lemma_chunk_bounded(chunks@, bodies@.len(), k);
    }
    if chunks.len() == 1 {
        let r = chunk_bodies(bodies, kicks, &chunks[0]);
        assert(r@ =~= whole);
        r
    } else {
        let job = |chunk: &Chunk| -> (part: Vec<Body>)
            requires
                chunk.lo <= chunk.hi <= bodies@.len(),
            ensures
                part@ == kicked_all(bodies@, kicks@).subrange(chunk.lo as int, chunk.hi as int),
            { chunk_bodies(bodies, kicks, chunk) };
        gather(chunks, job, Ghost(whole))
    }
}

/// Phase three of a step: the new position of every body.
fn integrate(poses: &Vec<Pos>, bodies: &Vec<Body>, chunks: &Vec<Chunk>) -> (r: Vec<Pos>)
    requires
        poses@.len() == bodies@.len(),
        covers(chunks@, poses@.len()),
    ensures
        r@ == moved_all(poses@, bodies@),
{
    let ghost whole = moved_all(poses@, bodies@);
    assert forall|k: int| 0 <= k < chunks@.len() implies (#[trigger] chunks@[k]).lo <= chunks@[k].hi
        <= poses@.len() by {
        lemma_chunk_bounded(chunks@, poses@.len(), k);
    }
    if chunks.len() == 1 {
        let r = chunk_poses(poses, bodies, &chunks[0]);
        assert(r@ =~= whole);
        r
    } else {
        let job = |chunk: &Chunk| -> (part: Vec<Pos>)
            requires
                chunk.lo <= chunk.hi <= poses@.len(),
            ensures
                part@ == moved_all(poses@, bodies@).subrange(chunk.lo as int, chunk.hi as int),
            { chunk_poses(poses, bodies, chunk) };
        gather(chunks, job, Ghost(whole))
    }
}

/// Advances the galaxy by one step, with the work of each phase divided
/// into the given chunks.
fn step(galaxy: &mut Galaxy, chunks: &Vec<Chunk>)
    requires
        old(galaxy).wf(),
        covers(chunks@, old(galaxy)@.size()),
    ensures
        final(galaxy).wf(),
        final(galaxy)@ == stepped(old(galaxy)@),
{
    let sources = snapshot(&galaxy.poses, &galaxy.masses);
    let kicks = evaluate(&sources, chunks);
    let bodies = derive(&galaxy.bodies, &kicks, chunks);
    let poses = integrate(&galaxy.poses, &bodies, chunks);
    galaxy.bodies = bodies;
    galaxy.poses = poses;
    proof {
        assert(final(galaxy)@.bodies =~= stepped(old(galaxy)@).bodies);
        assert(final(galaxy)@.poses =~= stepped(old(galaxy)@).poses);
    }
}

/// Advances the galaxy by `steps` steps. Within each phase of a step the
/// bodies are divided among `workers` workers; with one worker, or none,
/// nothing runs in parallel. The outcome does not depend on `workers`.
pub fn run(galaxy: &mut Galaxy, steps: usize, workers: usize)
    requires
        old(galaxy).wf(),
    ensures
        final(galaxy).wf(),
        final(galaxy)@ == evolved(old(galaxy)@, steps as nat),
        steps == 0 ==> final(galaxy)@ == old(galaxy)@,
        final(galaxy)@.masses == old(galaxy)@.masses,
        final(galaxy)@.size() == old(galaxy)@.size(),
{
    let chunks = partition(galaxy.size(), workers);
    let mut done: usize = 0;
    while done < steps
        invariant
            done <= steps,
            galaxy.wf(),
            covers(chunks@, galaxy@.size()),
            galaxy@.size() == old(galaxy)@.size(),
            galaxy@ == evolved(old(galaxy)@, done as nat),
        decreases steps - done,
    {
        step(galaxy, &chunks);
        done = done + 1;
    }
    proof {
        lemma_evolved_shape(old(galaxy)@, steps as nat);
    }
}

/// Runs from equal states over equal numbers of steps end in equal states,
/// bit for bit.
pub proof fn lemma_deterministic(first: State, second: State, steps: nat)
    requires
        first == second,
    ensures
        evolved(first, steps) == evolved(second, steps),
{
}

/// No number of steps changes a mass or the number of bodies, and the three
/// arrays stay of one length.
pub proof fn lemma_evolved_shape(s: State, steps: nat)
    requires
        s.wf(),
    ensures
        evolved(s, steps).wf(),
        evolved(s, steps).size() == s.size(),
        evolved(s, steps).masses == s.masses,
    decreases steps,
{
    if steps > 0 {
        lemma_evolved_shape(s, (steps - 1) as nat);
    }
}

} // verus!
