//! The flock: a fixed population of agents updated once per tick, in place
//! and in index order.
//!
//! Agents are updated sequentially against the live population: the agent at
//! index `i` perceives the agents before it in their already updated state and
//! those after it in their state of the previous tick. An agent never
//! perceives itself, because its identity equals its index and the scan skips
//! its own identity.

use vstd::prelude::*;

use crate::boid::{
    align_spec, all_wf, cohesion_spec, in_domain, lemma_perceived_congruent, lemma_perceived_members,
    perceived, positions_of, sees, separation_spec, steering_spec, update_spec, velocities_of,
    views, within_guard, Boid, BoidView, IdSource,
};
use crate::vector::norm_sq;
use crate::config::{Params, Rgba, MAX_FLOCK};
use crate::random::SimRng;
use crate::vector::Vec2;

verus! {

/// The population of a simulation run.
pub struct Flock {
    pub boids: Vec<Boid>,
}

/// Every agent is in its between-ticks state, has its index as identity, and
/// perceives only other agents of the flock.
pub open spec fn flock_wf(s: Seq<BoidView>, p: Params) -> bool {
    &&& all_wf(s, p)
    &&& forall|i: int| 0 <= i < s.len() ==> (#[trigger] s[i]).id == i
    &&& forall|i: int, k: int|
        0 <= i < s.len() && 0 <= k < s[i].local_flock.len() ==> {
            let j = #[trigger] s[i].local_flock[k];
            j < s.len() && j != i
        }
}

/// The population after the agents below index `i` have been updated, in
/// index order, each against the population as it stands at its turn.
pub open spec fn tick_prefix(s: Seq<BoidView>, p: Params, i: int) -> Seq<BoidView>
    decreases i,
{
    if i <= 0 {
        s
    } else {
        let t = tick_prefix(s, p, i - 1);
        t.update(i - 1, update_spec(t[i - 1], t, p))
    }
}

/// The population after one full tick.
pub open spec fn tick(s: Seq<BoidView>, p: Params) -> Seq<BoidView> {
    tick_prefix(s, p, s.len() as int)
}

impl Flock {
    /// The state of the population.
    pub open spec fn wf(&self, p: Params) -> bool {
        flock_wf(views(self.boids@), p)
    }

    /// A flock with no agents.
    pub fn empty() -> (r: Flock)
        ensures
            r.boids@.len() == 0,
    {
        Flock { boids: Vec::new() }
    }

    /// A flock of one new agent per colour of `colors`, with identities
    /// `0, 1, ...`, placed and set moving by draws from a generator seeded with
    /// `seed` (see `Boid::new`): equal seeds give equal flocks.
    pub fn new(p: &Params, seed: u64, colors: &Vec<Rgba>) -> (r: Flock)
        requires
            p.wf(),
            colors.len() <= MAX_FLOCK,
        ensures
            r.wf(*p),
            r.boids@.len() == colors.len(),
            forall|i: int| 0 <= i < colors.len() ==> (#[trigger] r.boids@[i]).color == colors@[i],
            forall|i: int|
                0 <= i < colors.len() ==> {
                    let b = (#[trigger] r.boids@[i])@;
                    &&& 0 <= b.pos.0 <= p.width
                    &&& 0 <= b.pos.1 <= p.height
                    &&& b.local_flock.len() == 0
                    &&& p.min_velocity * p.min_velocity <= norm_sq(b.vel) <= p.velocity_limit
                        * p.velocity_limit
                },
    {
        let mut rng = SimRng::seeded(seed);
        let mut ids = IdSource::new();
        let mut boids: Vec<Boid> = Vec::new();
        let n = colors.len();
        let mut i: usize = 0;
        while i < n
            invariant
                p.wf(),
                n == colors.len() <= MAX_FLOCK,
                i <= n,
                boids@.len() == i,
                ids.next == i,
                flock_wf(views(boids@), *p),
                forall|k: int| 0 <= k < i ==> (#[trigger] boids@[k]).color == colors@[k],
                forall|k: int|
                    0 <= k < i ==> {
                        let b = (#[trigger] boids@[k])@;
                        &&& 0 <= b.pos.0 <= p.width
                        &&& 0 <= b.pos.1 <= p.height
                        &&& b.local_flock.len() == 0
                        &&& p.min_velocity * p.min_velocity <= norm_sq(b.vel) <= p.velocity_limit
                            * p.velocity_limit
                    },
            decreases n - i,
        {
            let b = Boid::new(&mut ids, p, &mut rng, colors[i]);
            let ghost prev = views(boids@);
            boids.push(b);
            assert(views(boids@) =~= views(boids@.drop_last()).push(b@));
            assert(views(boids@)[i as int] == b@);
            assert(b@.local_flock.len() == 0);
            assert forall|j: int| 0 <= j < views(boids@).len() implies (#[trigger] views(
                boids@,
            )[j]).wf(*p) && views(boids@)[j].id == j by {
                if j < i {
                    assert(views(boids@)[j] == prev[j]);
                }
            }
            assert forall|j: int, k: int|
                0 <= j < views(boids@).len() && 0 <= k < views(boids@)[j].local_flock.len()
                    implies {
                let m = #[trigger] views(boids@)[j].local_flock[k];
                m < views(boids@).len() && m != j
            } by {
                if j < i {
                    assert(views(boids@)[j] == prev[j]);
                }
            }
            i = i + 1;
        }
        Flock { boids }
    }

    /// Adds an agent with identity equal to its index, at `pos` with velocity
    /// `vel`, when the position lies in the padded domain, the velocity within
    /// the speed guard, and the flock is not full; reports whether it did.
    pub fn push_agent(&mut self, p: &Params, pos: Vec2, vel: Vec2, color: Rgba) -> (r: bool)
        requires
            p.wf(),
            old(self).wf(*p),
        ensures
            final(self).wf(*p),
            r == (in_domain(pos@, *p) && within_guard(vel@, *p) && old(self).boids@.len()
                < MAX_FLOCK),
            r ==> views(final(self).boids@) == views(old(self).boids@).push(
                BoidView {
                    id: old(self).boids@.len() as usize,
                    pos: pos@,
                    vel: vel@,
                    acc: (0, 0),
                    local_flock: seq![],
                    color: color,
                },
            ),
            !r ==> final(self).boids@ == old(self).boids@,
    {
        let n = self.boids.len();
        let padded_width = p.width + p.padding;
        let padded_height = p.height + p.padding;
        if n >= MAX_FLOCK || pos.x < -p.padding || pos.x > padded_width || pos.y < -p.padding
            || pos.y > padded_height || vel.x < -padded_width || vel.x > padded_width || vel.y
            < -padded_height || vel.y > padded_height {
            return false;
        }
        let b = Boid::with_state(n, pos, vel, color);
        let ghost before = self.boids@;
        self.boids.push(b);
        assert(views(self.boids@) =~= views(before).push(b@));
        true
    }

    /// Number of agents.
    pub fn len(&self) -> (r: usize)
        ensures
            r == self.boids@.len(),
    {
        self.boids.len()
    }

    /// The agent at index `i`.
    pub fn boid(&self, i: usize) -> (r: &Boid)
        requires
            i < self.boids@.len(),
        ensures
            *r == self.boids@[i as int],
    {
        &self.boids[i]
    }

    /// One tick: every agent updated once, in index order, against the
    /// population as it stands at its turn.
    pub fn advance_all(&mut self, p: &Params)
        requires
            p.wf(),
            old(self).wf(*p),
        ensures
            final(self).wf(*p),
            views(final(self).boids@) == tick(views(old(self).boids@), *p),
    {
        let ghost start = views(self.boids@);
        let n = self.boids.len();
        let mut i: usize = 0;
        while i < n
            invariant
                p.wf(),
                n == self.boids@.len() == start.len(),
                i <= n,
                views(self.boids@) == tick_prefix(start, *p, i as int),
                flock_wf(views(self.boids@), *p),
            decreases n - i,
        {
            let ghost cur = views(self.boids@);
            let old_boid = &self.boids[i];
            assert(cur[i as int] == old_boid@);
            let mut b = Boid::with_state(
                old_boid.id,
                old_boid.cur_pos,
                old_boid.velocity,
                old_boid.color,
            );
            assert(b@.wf(*p));
            let ghost copy = b@;
            assert(cur[i as int].wf(*p));
            b.update(&self.boids, p);
            proof {
                crate::boid::lemma_update_congruent(copy, cur[i as int], cur, *p);
            }
            assert(b@ == update_spec(cur[i as int], cur, *p));
            proof {
                crate::boid::lemma_perceived_members(cur[i as int], cur, *p, cur.len() as int);
            }
            self.boids.set(i, b);
            assert(views(self.boids@) =~= cur.update(i as int, b@));
            i = i + 1;
        }
    }
}

/// In a well-formed flock, and so before and after every tick, no agent
/// perceives itself.
pub proof fn lemma_no_self_perception(f: Flock, p: Params, i: int, k: int)
    requires
        f.wf(p),
        0 <= i < f.boids@.len(),
        0 <= k < f.boids@[i]@.local_flock.len(),
    ensures
        f.boids@[i]@.local_flock[k] != i,
{
    assert(views(f.boids@)[i] == f.boids@[i]@);
    assert(views(f.boids@)[i].local_flock[k] != i);
}

/// Two agents share identity, position and velocity.
pub open spec fn same_motion(a: BoidView, b: BoidView) -> bool {
    a.id == b.id && a.pos == b.pos && a.vel == b.vel
}

/// Two populations agree, agent by agent, on identity, position and velocity.
pub open spec fn same_motion_all(s1: Seq<BoidView>, s2: Seq<BoidView>) -> bool {
    s1.len() == s2.len() && forall|i: int| 0 <= i < s1.len() ==> same_motion(#[trigger] s1[i], s2[i])
}

proof fn lemma_perceived_agree(me: BoidView, f1: Seq<BoidView>, f2: Seq<BoidView>, p: Params, n: int)
    requires
        same_motion_all(f1, f2),
        0 <= n <= f1.len(),
    ensures
        perceived(me, f1, p, n) == perceived(me, f2, p, n),
    decreases n,
{
    if n > 0 {
        lemma_perceived_agree(me, f1, f2, p, n - 1);
        assert(same_motion(f1[n - 1], f2[n - 1]));
        assert(sees(me, f1[n - 1], p) == sees(me, f2[n - 1], p));
    }
}

proof fn lemma_separation_agree(
    me1: BoidView,
    me2: BoidView,
    f1: Seq<BoidView>,
    f2: Seq<BoidView>,
    nb: Seq<usize>,
    p: Params,
)
    requires
        same_motion_all(f1, f2),
        me1.pos == me2.pos,
        forall|k: int| 0 <= k < nb.len() ==> (#[trigger] nb[k]) < f1.len(),
    ensures
        separation_spec(me1, f1, nb, p) == separation_spec(me2, f2, nb, p),
    decreases nb.len(),
{
    if nb.len() > 0 {
        let rest = nb.drop_last();
        assert forall|k: int| 0 <= k < rest.len() implies (#[trigger] rest[k]) < f1.len() by {
            assert(rest[k] == nb[k]);
        }
        lemma_separation_agree(me1, me2, f1, f2, rest, p);
        assert(nb.last() == nb[nb.len() - 1]);
        assert(same_motion(f1[nb.last() as int], f2[nb.last() as int]));
    }
}

proof fn lemma_update_agree(me1: BoidView, me2: BoidView, f1: Seq<BoidView>, f2: Seq<BoidView>, p: Params)
    requires
        same_motion(me1, me2),
        same_motion_all(f1, f2),
        f1.len() <= MAX_FLOCK,
    ensures
        same_motion(update_spec(me1, f1, p), update_spec(me2, f2, p)),
{
    let n = f1.len() as int;
    lemma_perceived_congruent(me1, me2, f1, p, n);
    lemma_perceived_agree(me2, f1, f2, p, n);
    let nb = perceived(me1, f1, p, n);
    lemma_perceived_members(me1, f1, p, n);
    let seen1 = BoidView { local_flock: nb, ..me1 };
    let seen2 = BoidView { local_flock: nb, ..me2 };
    assert forall|k: int| 0 <= k < nb.len() implies (#[trigger] nb[k]) < f1.len() by {}
    assert(velocities_of(f1, nb) =~= velocities_of(f2, nb)) by {
        assert forall|k: int| 0 <= k < nb.len() implies velocities_of(f1, nb)[k] == velocities_of(
            f2,
            nb,
        )[k] by {
            assert(same_motion(f1[nb[k] as int], f2[nb[k] as int]));
        }
    }
    assert(positions_of(f1, nb) =~= positions_of(f2, nb)) by {
        assert forall|k: int| 0 <= k < nb.len() implies positions_of(f1, nb)[k] == positions_of(
            f2,
            nb,
        )[k] by {
            assert(same_motion(f1[nb[k] as int], f2[nb[k] as int]));
        }
    }
    assert(align_spec(seen1, f1) == align_spec(seen2, f2));
    assert(cohesion_spec(seen1, f1, p) == cohesion_spec(seen2, f2, p));
    lemma_separation_agree(seen1, seen2, f1, f2, nb, p);
    assert(steering_spec(seen1, f1, p) == steering_spec(seen2, f2, p));
}

proof fn lemma_tick_prefix_agree(s1: Seq<BoidView>, s2: Seq<BoidView>, p: Params, i: int)
    requires
        same_motion_all(s1, s2),
        s1.len() <= MAX_FLOCK,
        0 <= i <= s1.len(),
    ensures
        same_motion_all(tick_prefix(s1, p, i), tick_prefix(s2, p, i)),
        tick_prefix(s1, p, i).len() == s1.len(),
    decreases i,
{
    if i > 0 {
        lemma_tick_prefix_agree(s1, s2, p, i - 1);
        let t1 = tick_prefix(s1, p, i - 1);
        let t2 = tick_prefix(s2, p, i - 1);
        assert(same_motion(t1[i - 1], t2[i - 1]));
        lemma_update_agree(t1[i - 1], t2[i - 1], t1, t2, p);
        let u1 = t1.update(i - 1, update_spec(t1[i - 1], t1, p));
        let u2 = t2.update(i - 1, update_spec(t2[i - 1], t2, p));
        assert forall|j: int| 0 <= j < u1.len() implies same_motion(#[trigger] u1[j], u2[j]) by {
            if j != i - 1 {
                assert(same_motion(t1[j], t2[j]));
            }
        }
    }
}

/// Determinism: two populations that agree on each agent's identity,
/// position and velocity still agree on them after a tick, whatever their
/// colours and earlier perceptions; so equal starting states (as equal seeds
/// give) follow equal trajectories.
pub proof fn lemma_deterministic_tick(s1: Seq<BoidView>, s2: Seq<BoidView>, p: Params)
    requires
        same_motion_all(s1, s2),
        s1.len() <= MAX_FLOCK,
    ensures
        same_motion_all(tick(s1, p), tick(s2, p)),
{
    lemma_tick_prefix_agree(s1, s2, p, s1.len() as int);
}

} // verus!
