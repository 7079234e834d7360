//! One agent of the flock: its state, how it perceives the others, the three
//! steering rules, the integrator with its soft speed limit, and the toroidal
//! boundary wrap.

use vstd::prelude::*;

use crate::random::SimRng;
use crate::config::{Params, Rgba, COS_UNIT, MAX_EXTENT, MAX_FLOCK, MAX_SEPARATION};
use crate::vector::{
    bounded, cdiv_away, ceil_length, clamp_spec, clamp_vector_magnitude, div_away, div_trunc, dot,
    vec_ceil_length,
    length, length_sqr, lemma_component_le_len, lemma_tdiv_bound, move_towards_spec,
    move_vec_towards, norm_sq, tdiv, vadd, vec_length, vscale, vsub, Vec2,
};

verus! {

/// An agent. Positions and velocities are in the fixed-point units of the
/// run's `Params`.
#[derive(Debug)]
pub struct Boid {
    /// Identity, unique within a flock.
    pub id: usize,
    /// Position in the padded domain.
    pub cur_pos: Vec2,
    /// Displacement per tick.
    pub velocity: Vec2,
    /// Steering of the current tick; zero between ticks.
    pub acceleration: Vec2,
    /// Indices, in the flock, of the agents perceived at the last update.
    pub local_flock: Vec<usize>,
    /// Colour used to draw the agent; no part of the simulation reads it.
    pub color: Rgba,
}

/// The mathematical state of an agent.
pub struct BoidView {
    pub id: usize,
    pub pos: (int, int),
    pub vel: (int, int),
    pub acc: (int, int),
    pub local_flock: Seq<usize>,
    pub color: Rgba,
}

impl View for Boid {
    type V = BoidView;

    open spec fn view(&self) -> BoidView {
        BoidView {
            id: self.id,
            pos: self.cur_pos@,
            vel: self.velocity@,
            acc: self.acceleration@,
            local_flock: self.local_flock@,
            color: self.color,
        }
    }
}

/// The states of a sequence of agents.
pub open spec fn views(s: Seq<Boid>) -> Seq<BoidView> {
    s.map_values(|b: Boid| b@)
}

/// `pos` lies in the padded domain.
pub open spec fn in_domain(pos: (int, int), p: Params) -> bool {
    &&& -p.padding <= pos.0 <= p.width + p.padding
    &&& -p.padding <= pos.1 <= p.height + p.padding
}

/// `v` moves less than one padded domain extent per tick along either axis.
pub open spec fn within_guard(v: (int, int), p: Params) -> bool {
    &&& -(p.width + p.padding) <= v.0 <= p.width + p.padding
    &&& -(p.height + p.padding) <= v.1 <= p.height + p.padding
}

impl BoidView {
    /// The state that every agent has between ticks.
    pub open spec fn wf(&self, p: Params) -> bool {
        &&& in_domain(self.pos, p)
        &&& within_guard(self.vel, p)
        &&& self.acc == (0int, 0int)
    }
}

/// The cosine of the angle between the non-zero vectors `a` and `b` is larger
/// than `c / COS_UNIT`; stated without square roots.
pub open spec fn cos_above(a: (int, int), b: (int, int), c: int) -> bool {
    let pr = dot(a, b);
    let lhs = COS_UNIT * COS_UNIT * (pr * pr);
    let rhs = (c * c) * (norm_sq(a) * norm_sq(b));
    if c >= 0 {
        pr > 0 && lhs > rhs
    } else {
        pr >= 0 || lhs < rhs
    }
}

/// An agent heading along `v` cannot see the offset `d`: the blind spot covers
/// everything, or `d` makes with the rear direction `-v` a smaller angle than
/// the blind spot's half-angle (whose cosine is `c / COS_UNIT`). An agent at
/// rest has no rear, and an offset of zero no direction.
pub open spec fn in_blind_spot(v: (int, int), d: (int, int), c: int) -> bool {
    c <= -COS_UNIT || (norm_sq(v) > 0 && norm_sq(d) > 0 && cos_above((-v.0, -v.1), d, c))
}

/// `me` perceives `other`: it lies within the perception radius and outside
/// the blind spot.
pub open spec fn sees(me: BoidView, other: BoidView, p: Params) -> bool {
    let d = vsub(other.pos, me.pos);
    norm_sq(d) <= p.perception_radius * p.perception_radius && !in_blind_spot(
        me.vel,
        d,
        p.blind_spot_cos as int,
    )
}

/// The indices below `n`, in increasing order, of the agents of `flock` other
/// than `me` that `me` perceives.
pub open spec fn perceived(me: BoidView, flock: Seq<BoidView>, p: Params, n: int) -> Seq<usize>
    decreases n,
{
    if n <= 0 {
        seq![]
    } else {
        let prev = perceived(me, flock, p, n - 1);
        if flock[n - 1].id != me.id && sees(me, flock[n - 1], p) {
            prev.push((n - 1) as usize)
        } else {
            prev
        }
    }
}

/// What `perceived` holds: exactly the other agents below `n` that are seen.
pub proof fn lemma_perceived_members(me: BoidView, flock: Seq<BoidView>, p: Params, n: int)
    requires
        0 <= n <= flock.len() <= MAX_FLOCK,
    ensures
        forall|k: int|
            0 <= k < perceived(me, flock, p, n).len() ==> {
                let j = #[trigger] perceived(me, flock, p, n)[k] as int;
                &&& 0 <= j < n
                &&& flock[j].id != me.id
                &&& sees(me, flock[j], p)
            },
        forall|j: int|
            0 <= j < n && flock[j].id != me.id && sees(me, flock[j], p) ==> perceived(
                me,
                flock,
                p,
                n,
            ).contains(j as usize),
    decreases n,
{
    if n > 0 {
        lemma_perceived_members(me, flock, p, n - 1);
        let prev = perceived(me, flock, p, n - 1);
        let cur = perceived(me, flock, p, n);
        assert forall|j: int|
            0 <= j < n && flock[j].id != me.id && sees(me, flock[j], p) implies cur.contains(
                j as usize,
            ) by {
            if j < n - 1 {
                let k = choose|k: int| 0 <= k < prev.len() && prev[k] == j as usize;
                assert(cur[k] == j as usize);
            } else {
                assert(cur[cur.len() - 1] == j as usize);
            }
        }
    }
}

/// An agent never perceives an agent with its own identity, so in a flock of
/// distinct identities never itself.
pub proof fn lemma_self_exclusion(me: BoidView, flock: Seq<BoidView>, p: Params, k: int)
    requires
        flock.len() <= MAX_FLOCK,
        0 <= k < perceived(me, flock, p, flock.len() as int).len(),
    ensures
        flock[perceived(me, flock, p, flock.len() as int)[k] as int].id != me.id,
{
    lemma_perceived_members(me, flock, p, flock.len() as int);
}

/// Every perceived agent lies within the perception radius.
pub proof fn lemma_radius(me: BoidView, flock: Seq<BoidView>, p: Params, k: int)
    requires
        flock.len() <= MAX_FLOCK,
        0 <= k < perceived(me, flock, p, flock.len() as int).len(),
    ensures
        norm_sq(vsub(flock[perceived(me, flock, p, flock.len() as int)[k] as int].pos, me.pos))
            <= p.perception_radius * p.perception_radius,
{
    lemma_perceived_members(me, flock, p, flock.len() as int);
}

/// No perceived agent lies in the blind spot; an agent in the blind spot is
/// not perceived, even within the radius.
pub proof fn lemma_blind_spot(me: BoidView, flock: Seq<BoidView>, p: Params, j: int)
    requires
        flock.len() <= MAX_FLOCK,
        0 <= j < flock.len(),
    ensures
        perceived(me, flock, p, flock.len() as int).contains(j as usize) ==> !in_blind_spot(
            me.vel,
            vsub(flock[j].pos, me.pos),
            p.blind_spot_cos as int,
        ),
        in_blind_spot(me.vel, vsub(flock[j].pos, me.pos), p.blind_spot_cos as int)
            ==> !perceived(me, flock, p, flock.len() as int).contains(j as usize),
{
    lemma_perceived_members(me, flock, p, flock.len() as int);
    let r = perceived(me, flock, p, flock.len() as int);
    if r.contains(j as usize) {
        let k = choose|k: int| 0 <= k < r.len() && r[k] == j as usize;
        assert(sees(me, flock[j], p));
    }
}

/// Every agent of `s` is in its between-ticks state, and there are not too many.
pub open spec fn all_wf(s: Seq<BoidView>, p: Params) -> bool {
    s.len() <= MAX_FLOCK && forall|i: int| 0 <= i < s.len() ==> (#[trigger] s[i]).wf(p)
}

/// A coordinate folded back once into `[-pad, extent + pad]`.
pub open spec fn wrap_coord(x: int, extent: int, pad: int) -> int {
    if x > extent + pad {
        x - (extent + pad)
    } else if x < -pad {
        x + (extent + pad)
    } else {
        x
    }
}

/// A position folded back into the padded domain.
pub open spec fn wrap_spec(pos: (int, int), p: Params) -> (int, int) {
    (wrap_coord(pos.0, p.width as int, p.padding as int), wrap_coord(pos.1, p.height as int, p.padding as int))
}

impl Boid {
    /// Whether this agent perceives `boid`: within the perception radius and
    /// outside the blind spot.
    pub fn is_visible(&self, boid: &Boid, p: &Params) -> (r: bool)
        requires
            p.wf(),
            self@.wf(*p),
            boid@.wf(*p),
        ensures
            r == sees(self@, boid@, *p),
    {
        let d = Vec2 { x: boid.cur_pos.x - self.cur_pos.x, y: boid.cur_pos.y - self.cur_pos.y };
        let dist_sq = length_sqr(d);
        let radius = p.perception_radius;
        assert(0 <= radius * radius <= 0x1000_0000_0000) by (nonlinear_arith)
            requires
                0 <= radius <= 0x40_0000,
        ;
        if dist_sq > (radius * radius) as u64 {
            return false;
        }
        let c = p.blind_spot_cos;
        if c <= -COS_UNIT {
            return false;
        }
        let v = self.velocity;
        let speed_sq = length_sqr(v);
        if speed_sq == 0 || dist_sq == 0 {
            return true;
        }
        assert(-0x2000_0000_0000 <= v.x * d.x <= 0x2000_0000_0000) by (nonlinear_arith)
            requires
                -0x40_0000 <= v.x <= 0x40_0000,
                -0x80_0000 <= d.x <= 0x80_0000,
        ;
        assert(-0x2000_0000_0000 <= v.y * d.y <= 0x2000_0000_0000) by (nonlinear_arith)
            requires
                -0x40_0000 <= v.y <= 0x40_0000,
                -0x80_0000 <= d.y <= 0x80_0000,
        ;
        assert(v.x * v.x <= 0x1000_0000_0000 && v.y * v.y <= 0x1000_0000_0000) by (nonlinear_arith)
            requires
                -0x40_0000 <= v.x <= 0x40_0000,
                -0x40_0000 <= v.y <= 0x40_0000,
        ;
        let pr: i64 = -(v.x * d.x) - v.y * d.y;
        assert(pr == dot((-v@.0, -v@.1), d@)) by (nonlinear_arith)
            requires
                pr == -(v.x * d.x) - v.y * d.y,
                v@ == (v.x as int, v.y as int),
        ;
        let pw = pr as i128;
        let cw = c as i128;
        let unit = COS_UNIT as i128;
        assert(0 <= pw * pw <= 0x1000_0000_0000_0000_0000_0000) by (nonlinear_arith)
            requires
                -0x4000_0000_0000 <= pw <= 0x4000_0000_0000,
        ;
        let lhs: i128 = (unit * unit) * (pw * pw);
        assert(0 <= cw * cw <= 0x1_0000_0000) by (nonlinear_arith)
            requires
                -0x1_0000 <= cw <= 0x1_0000,
        ;
        assert(0 <= (speed_sq as i128) * (dist_sq as i128) <= 0x200_0000_0000_0000_0000_0000) by (nonlinear_arith)
            requires
                0 <= speed_sq <= 0x2000_0000_0000,
                0 <= dist_sq <= 0x1000_0000_0000,
        ;
        let norms: i128 = (speed_sq as i128) * (dist_sq as i128);
        assert(0 <= (cw * cw) * norms <= 0x200_0000_0000_0000_0000_0000_0000_0000) by (nonlinear_arith)
            requires
                0 <= cw * cw <= 0x1_0000_0000,
                0 <= norms <= 0x200_0000_0000_0000_0000_0000,
        ;
        let rhs: i128 = (cw * cw) * norms;
        assert(norm_sq((-v@.0, -v@.1)) == norm_sq(v@)) by (nonlinear_arith);
        let hidden = if c >= 0 {
            pr > 0 && lhs > rhs
        } else {
            pr >= 0 || lhs < rhs
        };
        !hidden
    }

    /// Replaces the list of perceived agents with the indices, in increasing
    /// order, of the agents of `flock` that this agent perceives, leaving out
    /// every agent with its own identity.
    pub fn find_local_flock(&mut self, flock: &Vec<Boid>, p: &Params)
        requires
            p.wf(),
            old(self)@.wf(*p),
            all_wf(views(flock@), *p),
        ensures
            final(self)@ == (BoidView {
                local_flock: perceived(old(self)@, views(flock@), *p, flock.len() as int),
                ..old(self)@
            }),
    {
        let mut found: Vec<usize> = Vec::new();
        let n = flock.len();
        let mut i: usize = 0;
        while i < n
            invariant
                n == flock.len(),
                i <= n,
                p.wf(),
                self@.wf(*p),
                all_wf(views(flock@), *p),
                found@ == perceived(self@, views(flock@), *p, i as int),
            decreases n - i,
        {
            let b = &flock[i];
            assert(views(flock@)[i as int] == b@);
            if b.id != self.id && self.is_visible(b, p) {
                found.push(i);
            }
            i = i + 1;
        }
        self.local_flock = found;
    }

    /// Folds the position back into the padded domain, once along each axis.
    pub fn wrap(&mut self, p: &Params)
        requires
            p.wf(),
            -p.padding - (p.width + p.padding) <= old(self).cur_pos.x <= 2 * (p.width + p.padding),
            -p.padding - (p.height + p.padding) <= old(self).cur_pos.y <= 2 * (p.height + p.padding),
        ensures
            final(self)@ == (BoidView { pos: wrap_spec(old(self)@.pos, *p), ..old(self)@ }),
            in_domain(final(self)@.pos, *p),
    {
        let padded_width = p.width + p.padding;
        let padded_height = p.height + p.padding;
        if self.cur_pos.x > padded_width {
            self.cur_pos.x = self.cur_pos.x - padded_width;
        } else if self.cur_pos.x < -p.padding {
            self.cur_pos.x = self.cur_pos.x + padded_width;
        }
        if self.cur_pos.y > padded_height {
            self.cur_pos.y = self.cur_pos.y - padded_height;
        } else if self.cur_pos.y < -p.padding {
            self.cur_pos.y = self.cur_pos.y + padded_height;
        }
    }
}

/// Sum of a sequence of vectors.
pub open spec fn vsum(s: Seq<(int, int)>) -> (int, int)
    decreases s.len(),
{
    if s.len() == 0 {
        (0, 0)
    } else {
        vadd(vsum(s.drop_last()), s.last())
    }
}

/// Arithmetic mean of a sequence of vectors, each component rounded towards
/// zero; the zero vector for an empty sequence.
pub open spec fn mean(s: Seq<(int, int)>) -> (int, int) {
    if s.len() == 0 {
        (0, 0)
    } else {
        (tdiv(vsum(s).0, s.len() as int), tdiv(vsum(s).1, s.len() as int))
    }
}

/// The vectors of a sequence of `Vec2`.
pub open spec fn vec_views(s: Seq<Vec2>) -> Seq<(int, int)> {
    s.map_values(|v: Vec2| v@)
}

/// Positions of the agents of `flock` at the indices `nb`.
pub open spec fn positions_of(flock: Seq<BoidView>, nb: Seq<usize>) -> Seq<(int, int)> {
    nb.map_values(|j: usize| flock[j as int].pos)
}

/// Velocities of the agents of `flock` at the indices `nb`.
pub open spec fn velocities_of(flock: Seq<BoidView>, nb: Seq<usize>) -> Seq<(int, int)> {
    nb.map_values(|j: usize| flock[j as int].vel)
}

/// Every index of `nb` points into `flock`.
pub open spec fn indices_in(nb: Seq<usize>, flock: Seq<BoidView>) -> bool {
    forall|k: int| 0 <= k < nb.len() ==> (#[trigger] nb[k]) < flock.len()
}

/// Alignment: steer towards the mean velocity of the neighbours; no signal
/// without neighbours. The rule fires whenever some agent is perceived, also
/// when the neighbours' mean velocity happens to be zero: silence is tied to
/// an empty neighbourhood, not to a zero mean.
pub open spec fn align_spec(me: BoidView, flock: Seq<BoidView>) -> Option<(int, int)> {
    if me.local_flock.len() == 0 {
        None
    } else {
        Some(vsub(mean(velocities_of(flock, me.local_flock)), me.vel))
    }
}

/// Cohesion: steer towards the mean position of the neighbours, the vector's
/// length clamped into `[min_velocity, velocity_limit / 3]`; no signal without
/// neighbours (and, as for alignment, a signal whenever there are some).
pub open spec fn cohesion_spec(me: BoidView, flock: Seq<BoidView>, p: Params) -> Option<(int, int)> {
    if me.local_flock.len() == 0 {
        None
    } else {
        Some(
            clamp_spec(
                vsub(mean(positions_of(flock, me.local_flock)), me.pos),
                p.min_velocity as int,
                p.velocity_limit / 3,
            ),
        )
    }
}

/// Push away from the neighbour at offset `d` (from it to the agent), of
/// strength `k / |d|`: the vector `d * k / |d|^2`.
pub open spec fn push_away(d: (int, int), k: int) -> (int, int) {
    vscale(d, k, norm_sq(d))
}

/// Separation: one push away from each neighbour of `nb` that is not at the
/// agent's own position, in the order of `nb`.
pub open spec fn separation_spec(me: BoidView, flock: Seq<BoidView>, nb: Seq<usize>, p: Params) -> Seq<(int, int)>
    decreases nb.len(),
{
    if nb.len() == 0 {
        seq![]
    } else {
        let prev = separation_spec(me, flock, nb.drop_last(), p);
        let d = vsub(me.pos, flock[nb.last() as int].pos);
        if norm_sq(d) > 0 {
            prev.push(push_away(d, p.separation as int))
        } else {
            prev
        }
    }
}

/// The sequence holding the value of `o`, if any.
pub open spec fn opt_seq(o: Option<(int, int)>) -> Seq<(int, int)> {
    match o {
        Some(v) => seq![v],
        None => seq![],
    }
}

/// All steering vectors of a tick: alignment and cohesion when they fire,
/// then the separation pushes.
pub open spec fn steering_spec(me: BoidView, flock: Seq<BoidView>, p: Params) -> Seq<(int, int)> {
    opt_seq(align_spec(me, flock)) + opt_seq(cohesion_spec(me, flock, p)) + separation_spec(
        me,
        flock,
        me.local_flock,
        p,
    )
}

/// A sum of `n` terms, each within `b` of zero, over `n`, is within `b` of zero.
pub proof fn lemma_mean_bound(t: int, n: int, b: int)
    requires
        n > 0,
        b >= 0,
        -(n * b) <= t <= n * b,
    ensures
        -b <= tdiv(t, n) <= b,
{
    if t >= 0 {
        assert(t / n <= b) by (nonlinear_arith)
            requires
                0 <= t <= n * b,
                n > 0,
        ;
        assert(t / n >= 0) by (nonlinear_arith)
            requires
                0 <= t,
                n > 0,
        ;
    } else {
        assert((-t) / n <= b) by (nonlinear_arith)
            requires
                0 <= -t <= n * b,
                n > 0,
        ;
        assert((-t) / n >= 0) by (nonlinear_arith)
            requires
                0 <= -t,
                n > 0,
        ;
    }
}

/// The mean of `n` vectors from their sum, which lies within `n * b` of zero.
fn mean_of_sum(sum: Vec2, n: usize, b: i64) -> (r: Vec2)
    requires
        n > 0,
        b >= 0,
        -(n * b) <= sum.x <= n * b,
        -(n * b) <= sum.y <= n * b,
        sum.x > i64::MIN,
        sum.y > i64::MIN,
        n <= 0x1_0000_0000,
    ensures
        r@ == (tdiv(sum.x as int, n as int), tdiv(sum.y as int, n as int)),
        bounded(r@, b as int),
{
    proof {
        lemma_mean_bound(sum.x as int, n as int, b as int);
        lemma_mean_bound(sum.y as int, n as int, b as int);
    }
    Vec2 { x: div_trunc(sum.x, n as i64), y: div_trunc(sum.y, n as i64) }
}

/// The next partial sum stays within one more bound.
proof fn lemma_step_bound(i: int, b: int)
    ensures
        (i + 1) * b == i * b + b,
{
    assert((i + 1) * b == i * b + b) by (nonlinear_arith);
}

impl Boid {
    /// Mean position (`of_velocity` false) or mean velocity (`of_velocity`
    /// true) of the perceived agents; the zero vector when there are none.
    fn neighbour_mean(&self, flock: &Vec<Boid>, p: &Params, of_velocity: bool) -> (r: Vec2)
        requires
            p.wf(),
            all_wf(views(flock@), *p),
            indices_in(self.local_flock@, views(flock@)),
            self.local_flock@.len() <= MAX_FLOCK,
        ensures
            r@ == mean(
                if of_velocity {
                    velocities_of(views(flock@), self.local_flock@)
                } else {
                    positions_of(views(flock@), self.local_flock@)
                },
            ),
            bounded(r@, MAX_EXTENT as int),
    {
        let ghost s = if of_velocity {
            velocities_of(views(flock@), self.local_flock@)
        } else {
            positions_of(views(flock@), self.local_flock@)
        };
        let n = self.local_flock.len();
        let mut sum = Vec2 { x: 0, y: 0 };
        if n == 0 {
            return sum;
        }
        let mut i: usize = 0;
        while i < n
            invariant
                n == self.local_flock@.len() == s.len(),
                n <= MAX_FLOCK,
                i <= n,
                p.wf(),
                all_wf(views(flock@), *p),
                indices_in(self.local_flock@, views(flock@)),
                s == (if of_velocity {
                    velocities_of(views(flock@), self.local_flock@)
                } else {
                    positions_of(views(flock@), self.local_flock@)
                }),
                sum@ == vsum(s.take(i as int)),
                bounded(sum@, i * MAX_EXTENT),
            decreases n - i,
        {
            let j = self.local_flock[i];
            assert(j < flock.len());
            let b = &flock[j];
            assert(views(flock@)[j as int] == b@);
            assert(views(flock@)[j as int].wf(*p));
            assert(s.take(i + 1).drop_last() =~= s.take(i as int));
            proof {
                lemma_step_bound(i as int, MAX_EXTENT as int);
            }
            assert(i * MAX_EXTENT <= MAX_FLOCK * MAX_EXTENT) by (nonlinear_arith)
                requires
                    i <= MAX_FLOCK,
            ;
            let term = if of_velocity { b.velocity } else { b.cur_pos };
            sum = Vec2 { x: sum.x + term.x, y: sum.y + term.y };
            i = i + 1;
        }
        assert(s.take(n as int) =~= s);
        mean_of_sum(sum, n, MAX_EXTENT)
    }

    /// Mean position of the perceived agents; the zero vector when there are none.
    pub fn get_avg_position(&self, flock: &Vec<Boid>, p: &Params) -> (r: Vec2)
        requires
            p.wf(),
            all_wf(views(flock@), *p),
            indices_in(self.local_flock@, views(flock@)),
            self.local_flock@.len() <= MAX_FLOCK,
        ensures
            r@ == mean(positions_of(views(flock@), self.local_flock@)),
            bounded(r@, MAX_EXTENT as int),
    {
        self.neighbour_mean(flock, p, false)
    }

    /// Mean velocity of the perceived agents; the zero vector when there are none.
    pub fn get_avg_velocity(&self, flock: &Vec<Boid>, p: &Params) -> (r: Vec2)
        requires
            p.wf(),
            all_wf(views(flock@), *p),
            indices_in(self.local_flock@, views(flock@)),
            self.local_flock@.len() <= MAX_FLOCK,
        ensures
            r@ == mean(velocities_of(views(flock@), self.local_flock@)),
            bounded(r@, MAX_EXTENT as int),
    {
        self.neighbour_mean(flock, p, true)
    }
}

/// The vector held by an optional `Vec2`, if any.
pub open spec fn opt_view(o: Option<Vec2>) -> Option<(int, int)> {
    match o {
        Some(v) => Some(v@),
        None => None,
    }
}

impl Boid {
    /// Alignment vector: the mean velocity of the perceived agents minus this
    /// agent's velocity; `None` when no agent is perceived.
    pub fn get_align_vector(&self, flock: &Vec<Boid>, p: &Params) -> (r: Option<Vec2>)
        requires
            p.wf(),
            self@.wf(*p),
            all_wf(views(flock@), *p),
            indices_in(self.local_flock@, views(flock@)),
            self.local_flock@.len() <= MAX_FLOCK,
        ensures
            opt_view(r) == align_spec(self@, views(flock@)),
            r matches Some(v) ==> bounded(v@, 2 * MAX_EXTENT),
    {
        if self.local_flock.len() == 0 {
            return None;
        }
        let avg_velocity = self.get_avg_velocity(flock, p);
        Some(Vec2 { x: avg_velocity.x - self.velocity.x, y: avg_velocity.y - self.velocity.y })
    }

    /// Cohesion vector: from this agent to the mean position of the perceived
    /// agents, its length clamped into `[min_velocity, velocity_limit / 3]`;
    /// `None` when no agent is perceived.
    pub fn get_cohesion_vector(&self, flock: &Vec<Boid>, p: &Params) -> (r: Option<Vec2>)
        requires
            p.wf(),
            self@.wf(*p),
            all_wf(views(flock@), *p),
            indices_in(self.local_flock@, views(flock@)),
            self.local_flock@.len() <= MAX_FLOCK,
        ensures
            opt_view(r) == cohesion_spec(self@, views(flock@), *p),
            r matches Some(v) ==> bounded(v@, 2 * MAX_EXTENT),
    {
        if self.local_flock.len() == 0 {
            return None;
        }
        let avg_position = self.get_avg_position(flock, p);
        let steering_vec = Vec2 {
            x: avg_position.x - self.cur_pos.x,
            y: avg_position.y - self.cur_pos.y,
        };
        Some(clamp_vector_magnitude(steering_vec, p.min_velocity..(p.velocity_limit / 3)))
    }

    /// Separation vectors: for each perceived agent not at this agent's own
    /// position, a push away from it of strength `separation / distance`, in
    /// the order of perception.
    pub fn get_separation_vectors(&self, flock: &Vec<Boid>, p: &Params) -> (r: Vec<Vec2>)
        requires
            p.wf(),
            self@.wf(*p),
            all_wf(views(flock@), *p),
            indices_in(self.local_flock@, views(flock@)),
            self.local_flock@.len() <= MAX_FLOCK,
        ensures
            vec_views(r@) == separation_spec(self@, views(flock@), self.local_flock@, *p),
            r@.len() <= self.local_flock@.len(),
            forall|k: int| 0 <= k < r@.len() ==> bounded(#[trigger] r@[k]@, MAX_SEPARATION as int),
    {
        let ghost nb = self.local_flock@;
        let ghost fv = views(flock@);
        let n = self.local_flock.len();
        let k = p.separation;
        let mut steering_vecs: Vec<Vec2> = Vec::new();
        let mut i: usize = 0;
        while i < n
            invariant
                n == nb.len(),
                nb == self.local_flock@,
                fv == views(flock@),
                i <= n,
                p.wf(),
                self@.wf(*p),
                all_wf(fv, *p),
                indices_in(nb, fv),
                k == p.separation,
                vec_views(steering_vecs@) == separation_spec(self@, fv, nb.take(i as int), *p),
                steering_vecs@.len() <= i,
                forall|m: int|
                    0 <= m < steering_vecs@.len() ==> bounded(
                        #[trigger] steering_vecs@[m]@,
                        MAX_SEPARATION as int,
                    ),
            decreases n - i,
        {
            let j = self.local_flock[i];
            assert(j < flock.len());
            let other = &flock[j];
            assert(fv[j as int] == other@);
            assert(fv[j as int].wf(*p));
            assert(nb.take(i + 1).drop_last() =~= nb.take(i as int));
            assert(nb.take(i + 1).last() == j);
            let direction_away = Vec2 {
                x: self.cur_pos.x - other.cur_pos.x,
                y: self.cur_pos.y - other.cur_pos.y,
            };
            let dist_sq = length_sqr(direction_away);
            if dist_sq > 0 {
                let dx = direction_away.x;
                let dy = direction_away.y;
                assert(-(dist_sq * k) <= dx * k <= dist_sq * k && -(dist_sq * k) <= dy * k
                    <= dist_sq * k) by (nonlinear_arith)
                    requires
                        dist_sq == dx * dx + dy * dy,
                        dist_sq > 0,
                        k >= 0,
                ;
                assert(-0x80_0000_0000_0000 <= dx * k <= 0x80_0000_0000_0000) by (nonlinear_arith)
                    requires
                        -0x80_0000 <= dx <= 0x80_0000,
                        0 <= k <= 0x1_0000_0000,
                ;
                assert(-0x80_0000_0000_0000 <= dy * k <= 0x80_0000_0000_0000) by (nonlinear_arith)
                    requires
                        -0x80_0000 <= dy <= 0x80_0000,
                        0 <= k <= 0x1_0000_0000,
                ;
                proof {
                    lemma_mean_bound(dx * k, dist_sq as int, k as int);
                    lemma_mean_bound(dy * k, dist_sq as int, k as int);
                }
                let push = Vec2 {
                    x: div_trunc(dx * k, dist_sq as i64),
                    y: div_trunc(dy * k, dist_sq as i64),
                };
                steering_vecs.push(push);
                assert(vec_views(steering_vecs@) =~= separation_spec(
                    self@,
                    fv,
                    nb.take(i as int),
                    *p,
                ).push(push@));
            }
            i = i + 1;
        }
        assert(nb.take(n as int) =~= nb);
        steering_vecs
    }
}

/// `x` brought into `[lo, hi]`.
pub open spec fn clamp_int(x: int, lo: int, hi: int) -> int {
    if x < lo {
        lo
    } else if x > hi {
        hi
    } else {
        x
    }
}

/// The speed guard: each component of a velocity kept within one padded
/// domain extent, so that no agent crosses the domain in one tick.
pub open spec fn guard(v: (int, int), p: Params) -> (int, int) {
    (
        clamp_int(v.0, -(p.width + p.padding), p.width + p.padding),
        clamp_int(v.1, -(p.height + p.padding), p.height + p.padding),
    )
}

/// `v` rescaled to length `lim` from its integer length `s`, each component
/// rounded away from zero so that the result is never shorter than `lim`.
pub open spec fn relax_target(v: (int, int), lim: int, s: int) -> (int, int) {
    (cdiv_away(v.0 * lim, s), cdiv_away(v.1 * lim, s))
}

/// How far a velocity of integer length `s` moves towards the limit in one
/// tick: the excess over the limit times the damping factor, rounded up, so
/// that any excess of a whole unit gives a step.
pub open spec fn relax_step(s: int, p: Params) -> int {
    ((s - p.velocity_limit) * p.damping_num + p.damping_den - 1) / (p.damping_den as int)
}

/// The soft speed limit: a velocity longer than the limit moves towards the
/// same direction at the limit's length by the relaxation step; where that
/// step rounds to no move at all, it snaps to the target. Any other velocity
/// is kept.
pub open spec fn relax_spec(v: (int, int), p: Params) -> (int, int) {
    let s = length(v);
    let t = relax_target(v, p.velocity_limit as int, s);
    let m = move_towards_spec(v, t, relax_step(s, p));
    if norm_sq(v) > p.velocity_limit * p.velocity_limit {
        if m == v {
            t
        } else {
            m
        }
    } else {
        v
    }
}

/// The velocity after a tick with acceleration `a`: added, relaxed, guarded.
pub open spec fn next_velocity(v: (int, int), a: (int, int), p: Params) -> (int, int) {
    guard(relax_spec(vadd(v, a), p), p)
}

/// `c` lies between the target component `t` and the component `v`, on the
/// same side of zero as both.
pub open spec fn between(t: int, c: int, v: int) -> bool {
    (0 <= t <= c <= v) || (v <= c <= t <= 0)
}

/// A target component lies between zero and the component it rescales.
pub proof fn lemma_target_component(a: int, lim: int, s: int)
    requires
        0 < lim <= s,
        -s <= a <= s,
    ensures
        between(cdiv_away(a * lim, s), cdiv_away(a * lim, s), a),
{
    if a >= 0 {
        assert(a * lim <= a * s) by (nonlinear_arith)
            requires
                0 <= a,
                0 <= lim <= s,
        ;
        assert(a * lim >= 0) by (nonlinear_arith)
            requires
                0 <= a,
                0 <= lim,
        ;
        assert((a * lim + s - 1) / s <= a) by (nonlinear_arith)
            requires
                0 <= a * lim <= a * s,
                s > 0,
        ;
        assert((a * lim + s - 1) / s >= 0) by (nonlinear_arith)
            requires
                0 <= a * lim,
                s > 0,
        ;
    } else {
        assert((-a) * lim <= (-a) * s) by (nonlinear_arith)
            requires
                0 <= -a,
                0 <= lim <= s,
        ;
        assert((-a) * lim >= 0) by (nonlinear_arith)
            requires
                0 <= -a,
                0 <= lim,
        ;
        assert(-(a * lim) == (-a) * lim) by (nonlinear_arith);
        assert(a * lim < 0) by (nonlinear_arith)
            requires
                a < 0,
                lim > 0,
        ;
        assert((-(a * lim) + s - 1) / s <= -a) by (nonlinear_arith)
            requires
                0 <= -(a * lim) <= (-a) * s,
                s > 0,
        ;
        assert((-(a * lim) + s - 1) / s >= 0) by (nonlinear_arith)
            requires
                0 <= -(a * lim),
                s > 0,
        ;
    }
}

/// A component moved from `v` towards `t` by a fraction `step / dist <= 1` of
/// their difference stays between them.
pub proof fn lemma_moved_component(t: int, v: int, step: int, dist: int)
    requires
        between(t, t, v),
        0 <= step <= dist,
        dist > 0,
    ensures
        between(t, v + tdiv((t - v) * step, dist), v),
{
    let diff = t - v;
    let m = if diff >= 0 { diff } else { -diff };
    assert(-(dist * m) <= diff * step <= dist * m) by (nonlinear_arith)
        requires
            m == if diff >= 0 { diff } else { -diff },
            0 <= step <= dist,
    ;
    assert(m >= 0);
    lemma_mean_bound(diff * step, dist, m);
    if diff >= 0 {
        assert(diff * step >= 0) by (nonlinear_arith)
            requires
                diff >= 0,
                step >= 0,
        ;
    } else {
        assert(diff * step <= 0) by (nonlinear_arith)
            requires
                diff < 0,
                step >= 0,
        ;
    }
    lemma_tdiv_bound(diff * step, dist);
}

/// The relaxed velocity lies, component by component, between the target
/// at the limit's length and the velocity itself.
pub proof fn lemma_relax_between(v: (int, int), p: Params)
    requires
        p.wf(),
        bounded(v, 0x800_0000),
        norm_sq(v) > p.velocity_limit * p.velocity_limit,
    ensures
        length(v) >= p.velocity_limit,
        ({
            let t = relax_target(v, p.velocity_limit as int, length(v));
            let r = relax_spec(v, p);
            between(t.0, t.0, v.0) && between(t.1, t.1, v.1) && between(t.0, r.0, v.0)
                && between(t.1, r.1, v.1)
        }),
{
    let s = length(v);
    let lim = p.velocity_limit as int;
    let t = relax_target(v, lim, s);
    crate::vector::lemma_length(v);
    if s < lim {
        assert((s + 1) * (s + 1) <= lim * lim) by (nonlinear_arith)
            requires
                0 <= s + 1 <= lim,
        ;
    }
    assert(v.0 * v.0 <= norm_sq(v) && v.1 * v.1 <= norm_sq(v)) by (nonlinear_arith)
        requires
            norm_sq(v) == v.0 * v.0 + v.1 * v.1,
    ;
    lemma_component_le_len(v.0, norm_sq(v), s);
    lemma_component_le_len(v.1, norm_sq(v), s);
    lemma_target_component(v.0, lim, s);
    lemma_target_component(v.1, lim, s);
    let step = relax_step(s, p);
    assert(0 <= step <= s - lim) by (nonlinear_arith)
        requires
            step == ((s - lim) * p.damping_num + p.damping_den - 1) / (p.damping_den as int),
            0 < p.damping_num <= p.damping_den,
            s >= lim,
    ;
    let d = vsub(t, v);
    if !(norm_sq(d) == 0 || (step >= 0 && norm_sq(d) <= step * step)) {
        let dist = length(d);
        crate::vector::lemma_length(d);
        crate::vector::lemma_length_pos(d);
        if dist < step {
            assert((dist + 1) * (dist + 1) <= step * step) by (nonlinear_arith)
                requires
                    0 <= dist + 1 <= step,
            ;
        }
        lemma_moved_component(t.0, v.0, step, dist);
        lemma_moved_component(t.1, v.1, step, dist);
    }
}

/// Acceleration of a tick: the mean of all steering vectors, zero when none fired.
pub open spec fn acceleration_spec(me: BoidView, flock: Seq<BoidView>, p: Params) -> (int, int) {
    mean(steering_spec(me, flock, p))
}

/// The state of `me` after its update against `flock`: the perceived agents
/// recomputed, the velocity integrated from the acceleration of the steering
/// rules, the position moved by it and wrapped, the acceleration cleared.
pub open spec fn update_spec(me: BoidView, flock: Seq<BoidView>, p: Params) -> BoidView {
    let seen = BoidView { local_flock: perceived(me, flock, p, flock.len() as int), ..me };
    let vel = next_velocity(me.vel, acceleration_spec(seen, flock, p), p);
    BoidView { pos: wrap_spec(vadd(me.pos, vel), p), vel: vel, acc: (0, 0), ..seen }
}

/// Applies the soft speed limit to a velocity.
fn relax_speed(v: Vec2, p: &Params) -> (r: Vec2)
    requires
        p.wf(),
        bounded(v@, 0x800_0000),
    ensures
        r@ == relax_spec(v@, *p),
        bounded(r@, 0x800_0000),
{
    let speed_sq = length_sqr(v);
    let lim = p.velocity_limit;
    assert(0 < lim * lim <= 0x1000_0000_0000) by (nonlinear_arith)
        requires
            0 < lim <= 0x40_0000,
    ;
    if speed_sq > (lim * lim) as u64 {
        let speed = vec_length(v);
        assert(-0x2_0000_0000_0000 <= v.x * lim <= 0x2_0000_0000_0000) by (nonlinear_arith)
            requires
                -0x800_0000 <= v.x <= 0x800_0000,
                0 < lim <= 0x40_0000,
        ;
        assert(-0x2_0000_0000_0000 <= v.y * lim <= 0x2_0000_0000_0000) by (nonlinear_arith)
            requires
                -0x800_0000 <= v.y <= 0x800_0000,
                0 < lim <= 0x40_0000,
        ;
        assert(speed <= 0x1000_0000) by (nonlinear_arith)
            requires
                speed * speed <= v.x * v.x + v.y * v.y,
                -0x800_0000 <= v.x <= 0x800_0000,
                -0x800_0000 <= v.y <= 0x800_0000,
                speed >= 0,
        ;
        proof {
            lemma_relax_between(v@, *p);
        }
        let target = Vec2 { x: div_away(v.x * lim, speed), y: div_away(v.y * lim, speed) };
        assert(0 <= (speed - lim) * p.damping_num <= 0x1000_0000_0000) by (nonlinear_arith)
            requires
                0 <= speed - lim <= 0x1000_0000,
                0 < p.damping_num <= 0x1_0000,
        ;
        let step = ((speed - lim) * p.damping_num + p.damping_den - 1) / p.damping_den;
        assert(0 <= step <= speed - lim) by (nonlinear_arith)
            requires
                step == ((speed - lim) * p.damping_num + p.damping_den - 1) / (p.damping_den as int),
                0 < p.damping_num <= p.damping_den,
                speed >= lim,
        ;
        let moved = move_vec_towards(v, target, step);
        if moved == v {
            target
        } else {
            moved
        }
    } else {
        v
    }
}

/// Brings `x` into `[-bound, bound]`.
fn clamp_component(x: i64, bound: i64) -> (r: i64)
    requires
        bound >= 0,
    ensures
        r == clamp_int(x as int, -bound, bound as int),
{
    if x < -bound {
        -bound
    } else if x > bound {
        bound
    } else {
        x
    }
}

impl Boid {
    /// One update of this agent against `flock`: perceive, steer, integrate
    /// the velocity under the speed guard and the soft speed limit, move, wrap,
    /// and clear the acceleration. Agents of `flock` with this agent's
    /// identity are never perceived.
    pub fn update(&mut self, flock: &Vec<Boid>, p: &Params)
        requires
            p.wf(),
            old(self)@.wf(*p),
            all_wf(views(flock@), *p),
        ensures
            final(self)@ == update_spec(old(self)@, views(flock@), *p),
            final(self)@.wf(*p),
    {
        let ghost fv = views(flock@);
        self.find_local_flock(flock, p);
        proof {
            lemma_perceived_members(old(self)@, fv, *p, fv.len() as int);
        }
        assert(indices_in(self.local_flock@, fv));
        assert(self.local_flock@.len() <= MAX_FLOCK) by {
            lemma_perceived_len(old(self)@, fv, *p, fv.len() as int);
        }
        let mut steering_vectors: Vec<Vec2> = Vec::new();
        match self.get_align_vector(flock, p) {
            Some(vec) => steering_vectors.push(vec),
            None => {},
        }
        match self.get_cohesion_vector(flock, p) {
            Some(vec) => steering_vectors.push(vec),
            None => {},
        }
        let ghost seen = self@;
        let mut separation = self.get_separation_vectors(flock, p);
        steering_vectors.append(&mut separation);
        assert(vec_views(steering_vectors@) =~= steering_spec(seen, fv, *p));
        assert forall|k: int|
            0 <= k < steering_vectors@.len() implies bounded(
            #[trigger] steering_vectors@[k]@,
            MAX_SEPARATION as int,
        ) by {
            if k >= steering_vectors@.len() - separation@.len() {
            }
        }
        let n = steering_vectors.len();
        let mut sum = Vec2 { x: 0, y: 0 };
        let mut i: usize = 0;
        while i < n
            invariant
                n == steering_vectors@.len(),
                n <= MAX_FLOCK + 2,
                i <= n,
                forall|k: int|
                    0 <= k < n ==> bounded(#[trigger] steering_vectors@[k]@, MAX_SEPARATION as int),
                sum@ == vsum(vec_views(steering_vectors@).take(i as int)),
                bounded(sum@, i * MAX_SEPARATION),
            decreases n - i,
        {
            let vec = steering_vectors[i];
            assert(bounded(steering_vectors@[i as int]@, MAX_SEPARATION as int));
            assert(vec_views(steering_vectors@).take(i + 1).drop_last() =~= vec_views(
                steering_vectors@,
            ).take(i as int));
            proof {
                lemma_step_bound(i as int, MAX_SEPARATION as int);
            }
            assert(i * MAX_SEPARATION <= (MAX_FLOCK + 2) * MAX_SEPARATION) by (nonlinear_arith)
                requires
                    i <= MAX_FLOCK + 2,
            ;
            sum = Vec2 { x: sum.x + vec.x, y: sum.y + vec.y };
            i = i + 1;
        }
        assert(vec_views(steering_vectors@).take(n as int) =~= vec_views(steering_vectors@));
        if n > 0 {
            assert(n * MAX_SEPARATION <= (MAX_FLOCK + 2) * MAX_SEPARATION) by (nonlinear_arith)
                requires
                    n <= MAX_FLOCK + 2,
            ;
            self.acceleration = mean_of_sum(sum, n, MAX_SEPARATION);
        }
        assert(self.acceleration@ == acceleration_spec(seen, fv, *p));
        let padded_width = p.width + p.padding;
        let padded_height = p.height + p.padding;
        let relaxed = relax_speed(
            Vec2 {
                x: self.velocity.x + self.acceleration.x,
                y: self.velocity.y + self.acceleration.y,
            },
            p,
        );
        self.velocity = Vec2 {
            x: clamp_component(relaxed.x, padded_width),
            y: clamp_component(relaxed.y, padded_height),
        };
        self.cur_pos = Vec2 {
            x: self.cur_pos.x + self.velocity.x,
            y: self.cur_pos.y + self.velocity.y,
        };
        self.wrap(p);
        // The acceleration only lasts for the tick that computed it.
        self.acceleration = Vec2 { x: 0, y: 0 };
    }
}

/// There are never more perceived agents than candidates.
pub proof fn lemma_perceived_len(me: BoidView, flock: Seq<BoidView>, p: Params, n: int)
    requires
        0 <= n,
    ensures
        perceived(me, flock, p, n).len() <= n,
    decreases n,
{
    if n > 0 {
        lemma_perceived_len(me, flock, p, n - 1);
    }
}

/// Half-width of the square from which a heading is drawn.
pub const HEADING_RANGE: i64 = 0x1_0000;

/// Hands out agent identities, each one larger than all it handed out before.
pub struct IdSource {
    pub next: usize,
}

impl IdSource {
    /// A source whose first identity is 0.
    pub fn new() -> (r: IdSource)
        ensures
            r.next == 0,
    {
        IdSource { next: 0 }
    }

    /// The next identity.
    pub fn take(&mut self) -> (r: usize)
        requires
            old(self).next < usize::MAX,
        ensures
            r == old(self).next,
            final(self).next == old(self).next + 1,
    {
        let r = self.next;
        self.next = self.next + 1;
        r
    }
}

/// The vector along an axis, of length `s`, nearest in direction to `h`.
pub open spec fn axis_velocity(h: (int, int), s: int) -> (int, int) {
    if h.0 * h.0 >= h.1 * h.1 {
        (if h.0 >= 0 { s } else { -s }, 0)
    } else {
        (0, if h.1 >= 0 { s } else { -s })
    }
}

/// The velocity of speed `s` along the heading `h`: `h` scaled by `s` over its
/// length rounded up, components rounded towards zero, so that it is never
/// faster than `s`. Where that rounding leaves it slower than `min_velocity`
/// (only for tiny speeds), the axis direction nearest to `h` at exactly `s`.
pub open spec fn heading_velocity(h: (int, int), s: int, p: Params) -> (int, int) {
    let v = vscale(h, s, ceil_length(h));
    if norm_sq(v) >= p.min_velocity * p.min_velocity {
        v
    } else {
        axis_velocity(h, s)
    }
}

impl Boid {
    /// The agent that the draws `x`, `y` (position), `speed` and `heading` (a
    /// non-zero direction) give: it moves along `heading` at `speed`, as
    /// `heading_velocity` rounds it, perceives nothing and does not accelerate.
    pub fn from_draws(id: usize, x: i64, y: i64, speed: i64, heading: Vec2, color: Rgba, p: &Params) -> (r: Boid)
        requires
            p.wf(),
            0 <= x <= p.width,
            0 <= y <= p.height,
            p.min_velocity <= speed <= p.velocity_limit,
            bounded(heading@, HEADING_RANGE as int),
            norm_sq(heading@) > 0,
        ensures
            r@ == (BoidView {
                id: id,
                pos: (x as int, y as int),
                vel: heading_velocity(heading@, speed as int, *p),
                acc: (0, 0),
                local_flock: seq![],
                color: color,
            }),
            r@.wf(*p),
            p.min_velocity * p.min_velocity <= norm_sq(r@.vel) <= speed * speed,
    {
        let h = heading;
        let c = vec_ceil_length(h);
        assert(-0x40_0000_0000 <= h.x * speed <= 0x40_0000_0000 && -0x40_0000_0000 <= h.y * speed
            <= 0x40_0000_0000) by (nonlinear_arith)
            requires
                bounded(h@, 0x1_0000),
                0 <= speed <= 0x40_0000,
        ;
        let scaled = Vec2 { x: div_trunc(h.x * speed, c), y: div_trunc(h.y * speed, c) };
        proof {
            assert(h.x * h.x <= c * c && h.y * h.y <= c * c) by (nonlinear_arith)
                requires
                    c * c >= h.x * h.x + h.y * h.y,
            ;
            assert(c * c < (c + 1) * (c + 1)) by (nonlinear_arith)
                requires
                    c >= 0,
            ;
            crate::vector::lemma_component_le_len(h.x as int, c * c, c as int);
            crate::vector::lemma_component_le_len(h.y as int, c * c, c as int);
            crate::vector::lemma_scaled_component(h.x as int, speed as int, c as int, speed as int);
            crate::vector::lemma_scaled_component(h.y as int, speed as int, c as int, speed as int);
            crate::vector::lemma_trunc_upper(h.x as int, speed as int, c as int);
            crate::vector::lemma_trunc_upper(h.y as int, speed as int, c as int);
            assert(norm_sq(scaled@) * (c * c) <= norm_sq(h@) * (speed * speed)) by (nonlinear_arith)
                requires
                    scaled.x * scaled.x * (c * c) <= (h.x * h.x) * (speed * speed),
                    scaled.y * scaled.y * (c * c) <= (h.y * h.y) * (speed * speed),
                    norm_sq(scaled@) == scaled.x * scaled.x + scaled.y * scaled.y,
                    norm_sq(h@) == h.x * h.x + h.y * h.y,
            ;
            assert(norm_sq(scaled@) <= speed * speed) by (nonlinear_arith)
                requires
                    norm_sq(scaled@) * (c * c) <= norm_sq(h@) * (speed * speed),
                    norm_sq(h@) <= c * c,
                    c > 0,
            ;
        }
        let min = p.min_velocity;
        assert(0 <= min * min <= 0x1000_0000_0000) by (nonlinear_arith)
            requires
                0 <= min <= 0x40_0000,
        ;
        let speed_sq = length_sqr(scaled);
        let velocity = if speed_sq >= (min * min) as u64 {
            scaled
        } else {
            assert(min * min <= speed * speed) by (nonlinear_arith)
                requires
                    0 <= min <= speed,
            ;
            assert(0 <= h.x * h.x <= 0x1_0000_0000 && 0 <= h.y * h.y <= 0x1_0000_0000) by (nonlinear_arith)
                requires
                    bounded(h@, 0x1_0000),
            ;
            if h.x * h.x >= h.y * h.y {
                Vec2 { x: if h.x >= 0 { speed } else { -speed }, y: 0 }
            } else {
                Vec2 { x: 0, y: if h.y >= 0 { speed } else { -speed } }
            }
        };
        assert(speed_sq < min * min ==> norm_sq(velocity@) == speed * speed) by (nonlinear_arith)
            requires
                speed_sq < min * min ==> (velocity@ == (speed as int, 0int) || velocity@ == (
                    -speed as int,
                    0int,
                ) || velocity@ == (0int, speed as int) || velocity@ == (0int, -speed as int)),
        ;
        let r = Boid {
            id,
            cur_pos: Vec2 { x, y },
            velocity,
            acceleration: Vec2 { x: 0, y: 0 },
            local_flock: Vec::new(),
            color,
        };
        assert(r@.local_flock =~= seq![]);
        r
    }

    /// A new agent with the next identity of `ids` and colour `color`: its
    /// position is drawn from `[0, width] x [0, height]`, its speed from
    /// `[min_velocity, velocity_limit]`, and its heading uniformly from the
    /// directions, as a point of the disk of radius `HEADING_RANGE` (drawn from
    /// the square, up to a bounded number of attempts, then along the x axis).
    pub fn new(ids: &mut IdSource, p: &Params, rng: &mut SimRng, color: Rgba) -> (r: Boid)
        requires
            p.wf(),
            old(ids).next < usize::MAX,
        ensures
            r.id == old(ids).next,
            final(ids).next == old(ids).next + 1,
            r@.wf(*p),
            r.color == color,
            r@.local_flock.len() == 0,
            0 <= r@.pos.0 <= p.width,
            0 <= r@.pos.1 <= p.height,
            p.min_velocity * p.min_velocity <= norm_sq(r@.vel) <= p.velocity_limit
                * p.velocity_limit,
    {
        let id = ids.take();
        let x = rng.draw(0, p.width);
        let y = rng.draw(0, p.height);
        let speed = rng.draw(p.min_velocity, p.velocity_limit);
        let mut heading = Vec2 { x: 1, y: 0 };
        let mut found = false;
        let mut attempts: u32 = 0;
        while attempts < 64 && !found
            invariant
                bounded(heading@, HEADING_RANGE as int),
                norm_sq(heading@) > 0,
            decreases 64 - attempts,
        {
            let hx = rng.draw(-HEADING_RANGE, HEADING_RANGE);
            let hy = rng.draw(-HEADING_RANGE, HEADING_RANGE);
            assert(0 <= hx * hx <= 0x1_0000_0000 && 0 <= hy * hy <= 0x1_0000_0000) by (nonlinear_arith)
                requires
                    bounded((hx as int, hy as int), 0x1_0000),
            ;
            let n = hx * hx + hy * hy;
            if 0 < n && n <= HEADING_RANGE * HEADING_RANGE {
                heading = Vec2 { x: hx, y: hy };
                found = true;
            }
            attempts = attempts + 1;
        }
        assert(p.velocity_limit * p.velocity_limit >= speed * speed) by (nonlinear_arith)
            requires
                0 <= speed <= p.velocity_limit,
        ;
        Boid::from_draws(id, x, y, speed, heading, color, p)
    }

    /// An agent with the given state, perceiving nothing yet.
    pub fn with_state(id: usize, cur_pos: Vec2, velocity: Vec2, color: Rgba) -> (r: Boid)
        ensures
            r@ == (BoidView {
                id: id,
                pos: cur_pos@,
                vel: velocity@,
                acc: (0, 0),
                local_flock: seq![],
                color: color,
            }),
    {
        let r = Boid {
            id,
            cur_pos,
            velocity,
            acceleration: Vec2 { x: 0, y: 0 },
            local_flock: Vec::new(),
            color,
        };
        assert(r@.local_flock =~= seq![]);
        r
    }

    /// Identity of the agent.
    pub fn id(&self) -> (r: usize)
        ensures
            r == self.id,
    {
        self.id
    }

    /// Position of the agent.
    pub fn position(&self) -> (r: Vec2)
        ensures
            r == self.cur_pos,
    {
        self.cur_pos
    }

    /// Velocity of the agent.
    pub fn velocity(&self) -> (r: Vec2)
        ensures
            r == self.velocity,
    {
        self.velocity
    }

    /// Colour of the agent.
    pub fn color(&self) -> (r: Rgba)
        ensures
            r == self.color,
    {
        self.color
    }

    /// Indices of the agents perceived at the last update.
    pub fn local_flock(&self) -> (r: &Vec<usize>)
        ensures
            r@ == self.local_flock@,
    {
        &self.local_flock
    }
}

/// What an agent perceives depends on its identity, position and velocity only.
pub proof fn lemma_perceived_congruent(a: BoidView, b: BoidView, flock: Seq<BoidView>, p: Params, n: int)
    requires
        a.id == b.id,
        a.pos == b.pos,
        a.vel == b.vel,
    ensures
        perceived(a, flock, p, n) == perceived(b, flock, p, n),
    decreases n,
{
    if n > 0 {
        lemma_perceived_congruent(a, b, flock, p, n - 1);
        assert(sees(a, flock[n - 1], p) == sees(b, flock[n - 1], p));
    }
}

/// An update does not depend on what the agent perceived before it.
pub proof fn lemma_update_congruent(a: BoidView, b: BoidView, flock: Seq<BoidView>, p: Params)
    requires
        a.id == b.id,
        a.pos == b.pos,
        a.vel == b.vel,
        a.acc == b.acc,
        a.color == b.color,
    ensures
        update_spec(a, flock, p) == update_spec(b, flock, p),
{
    lemma_perceived_congruent(a, b, flock, p, flock.len() as int);
    let sa = BoidView { local_flock: perceived(a, flock, p, flock.len() as int), ..a };
    let sb = BoidView { local_flock: perceived(b, flock, p, flock.len() as int), ..b };
    assert(sa == sb);
}

} // verus!
