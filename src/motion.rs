//! Facts about how agents move from tick to tick: the soft speed limit never
//! speeds an agent up nor pushes it below the limit, the wrap leaves positions
//! inside the domain alone, and an agent that perceives nobody coasts.

use vstd::prelude::*;

use crate::boid::{
    acceleration_spec, between, guard, in_domain, lemma_relax_between, next_velocity,
    perceived, relax_spec, relax_target, separation_spec, steering_spec, update_spec,
    within_guard, wrap_coord, wrap_spec, BoidView,
};
use crate::config::{Params, MAX_FLOCK};
use crate::vector::{cdiv_away, lemma_away_lower, lemma_length, length, norm_sq, vadd};

verus! {

/// A component between the target and the velocity has a square between
/// theirs.
proof fn lemma_between_squares(t: int, c: int, v: int)
    requires
        between(t, c, v),
    ensures
        t * t <= c * c <= v * v,
{
    if 0 <= t <= c <= v {
        assert(t * t <= c * c <= v * v) by (nonlinear_arith)
            requires
                0 <= t <= c <= v,
        ;
    } else {
        assert(t * t <= c * c <= v * v) by (nonlinear_arith)
            requires
                v <= c <= t <= 0,
        ;
    }
}

/// Soft speed limit: with no acceleration, a velocity at least as long as the
/// limit is no longer after a tick, and still at least as long as the limit.
pub proof fn lemma_speed_relaxation(v: (int, int), p: Params)
    requires
        p.wf(),
        within_guard(v, p),
        norm_sq(v) >= p.velocity_limit * p.velocity_limit,
    ensures
        p.velocity_limit * p.velocity_limit <= norm_sq(next_velocity(v, (0, 0), p)) <= norm_sq(v),
        within_guard(next_velocity(v, (0, 0), p), p),
{
    assert(vadd(v, (0, 0)) == v);
    let lim = p.velocity_limit as int;
    let s = length(v);
    lemma_length(v);
    if norm_sq(v) > lim * lim {
        lemma_relax_between(v, p);
        let t = relax_target(v, lim, s);
        let r = relax_spec(v, p);
        lemma_between_squares(t.0, r.0, v.0);
        lemma_between_squares(t.1, r.1, v.1);
        lemma_away_lower(v.0, lim, s);
        lemma_away_lower(v.1, lim, s);
        assert(norm_sq(t) * (s * s) >= norm_sq(v) * (lim * lim)) by (nonlinear_arith)
            requires
                t.0 * t.0 * (s * s) >= (v.0 * v.0) * (lim * lim),
                t.1 * t.1 * (s * s) >= (v.1 * v.1) * (lim * lim),
                norm_sq(t) == t.0 * t.0 + t.1 * t.1,
                norm_sq(v) == v.0 * v.0 + v.1 * v.1,
        ;
        assert(norm_sq(t) >= lim * lim) by (nonlinear_arith)
            requires
                norm_sq(t) * (s * s) >= norm_sq(v) * (lim * lim),
                norm_sq(v) >= s * s,
                s > 0,
                lim > 0,
        ;
        assert(within_guard(r, p));
        assert(guard(r, p) == r);
    } else {
        assert(guard(v, p) == v);
    }
}

/// The velocity after `n` ticks without acceleration.
pub open spec fn coast(v: (int, int), p: Params, n: nat) -> (int, int)
    decreases n,
{
    if n == 0 {
        v
    } else {
        next_velocity(coast(v, p, (n - 1) as nat), (0, 0), p)
    }
}

/// Soft speed limit over many ticks: without acceleration, a velocity at least
/// as long as the limit gets no longer from one tick to the next, and never
/// shorter than the limit.
pub proof fn lemma_speed_relaxation_repeated(v: (int, int), p: Params, n: nat)
    requires
        p.wf(),
        within_guard(v, p),
        norm_sq(v) >= p.velocity_limit * p.velocity_limit,
    ensures
        p.velocity_limit * p.velocity_limit <= norm_sq(coast(v, p, n + 1)) <= norm_sq(
            coast(v, p, n),
        ),
        within_guard(coast(v, p, n + 1), p),
    decreases n,
{
    if n > 0 {
        lemma_speed_relaxation_repeated(v, p, (n - 1) as nat);
    }
    lemma_speed_relaxation(coast(v, p, n), p);
}

/// Wrap: a position inside the padded domain is left as it is, and a
/// coordinate that overshoots the padded extent by at most one padded extent
/// comes back inside it.
pub proof fn lemma_wrap_idempotent(pos: (int, int), eps: int, p: Params)
    requires
        p.wf(),
    ensures
        in_domain(pos, p) ==> wrap_spec(pos, p) == pos,
        0 < eps <= p.width + p.padding ==> wrap_coord(
            p.width + p.padding + eps,
            p.width as int,
            p.padding as int,
        ) == eps && -p.padding <= eps <= p.width + p.padding,
        0 < eps <= p.height + p.padding ==> wrap_coord(
            p.height + p.padding + eps,
            p.height as int,
            p.padding as int,
        ) == eps && -p.padding <= eps <= p.height + p.padding,
{
}

/// An agent that perceives nobody coasts: its velocity changes only by the
/// soft speed limit, its position only by that velocity and the wrap; below
/// the limit it keeps its velocity exactly, above it each component keeps its
/// sign and does not grow (the direction is kept up to rounding).
pub proof fn lemma_isolated_inertia(me: BoidView, flock: Seq<BoidView>, p: Params)
    requires
        p.wf(),
        me.wf(p),
        flock.len() <= MAX_FLOCK,
        perceived(me, flock, p, flock.len() as int).len() == 0,
    ensures
        update_spec(me, flock, p).vel == relax_spec(me.vel, p),
        update_spec(me, flock, p).pos == wrap_spec(vadd(me.pos, relax_spec(me.vel, p)), p),
        norm_sq(me.vel) <= p.velocity_limit * p.velocity_limit ==> update_spec(me, flock, p).vel
            == me.vel,
        between(0, update_spec(me, flock, p).vel.0, me.vel.0),
        between(0, update_spec(me, flock, p).vel.1, me.vel.1),
{
    let seen = BoidView { local_flock: perceived(me, flock, p, flock.len() as int), ..me };
    assert(separation_spec(seen, flock, seen.local_flock, p) =~= seq![]);
    assert(steering_spec(seen, flock, p) =~= seq![]);
    assert(acceleration_spec(seen, flock, p) == (0int, 0int));
    assert(vadd(me.vel, (0, 0)) == me.vel);
    if norm_sq(me.vel) > p.velocity_limit * p.velocity_limit {
        lemma_relax_between(me.vel, p);
        assert(within_guard(relax_spec(me.vel, p), p));
    } else {
        assert(between(0, me.vel.0, me.vel.0) && between(0, me.vel.1, me.vel.1));
    }
    assert(guard(relax_spec(me.vel, p), p) == relax_spec(me.vel, p));
}

/// A component at least half the integer length `s`, rescaled to the limit
/// with `s` at least two units above the limit, strictly shrinks.
proof fn lemma_target_moves(a: int, lim: int, s: int)
    requires
        0 < lim,
        lim + 2 <= s,
        s <= 2 * a || 2 * a <= -s,
    ensures
        cdiv_away(a * lim, s) != a,
{
    if a >= 0 {
        assert(a * lim <= a * s - s) by (nonlinear_arith)
            requires
                0 < lim,
                lim + 2 <= s,
                s <= 2 * a,
        ;
        assert(a * lim >= 0) by (nonlinear_arith)
            requires
                a >= 0,
                lim > 0,
        ;
        assert((a * lim + s - 1) / s <= a - 1) by (nonlinear_arith)
            requires
                0 <= a * lim <= a * s - s,
                s > 0,
        ;
    } else {
        assert((-a) * lim <= (-a) * s - s) by (nonlinear_arith)
            requires
                0 < lim,
                lim + 2 <= s,
                s <= 2 * (-a),
        ;
        assert(a * lim < 0) by (nonlinear_arith)
            requires
                a < 0,
                lim > 0,
        ;
        assert(-(a * lim) == (-a) * lim) by (nonlinear_arith);
        assert((-(a * lim) + s - 1) / s <= -a - 1) by (nonlinear_arith)
            requires
                0 <= -(a * lim) <= (-a) * s - s,
                s > 0,
        ;
    }
}

/// Strict decrease: without acceleration, a velocity whose integer length is
/// at least two units above the limit is strictly slower after a tick (and,
/// by the soft speed limit, not slower than the limit). So the speed falls
/// every tick until its integer length is within one unit of the limit.
pub proof fn lemma_speed_strictly_decreases(v: (int, int), p: Params)
    requires
        p.wf(),
        within_guard(v, p),
        length(v) >= p.velocity_limit + 2,
    ensures
        norm_sq(next_velocity(v, (0, 0), p)) < norm_sq(v),
        p.velocity_limit * p.velocity_limit <= norm_sq(next_velocity(v, (0, 0), p)),
{
    let lim = p.velocity_limit as int;
    let s = length(v);
    lemma_length(v);
    assert(norm_sq(v) > lim * lim) by (nonlinear_arith)
        requires
            norm_sq(v) >= s * s,
            s >= lim + 2,
            lim > 0,
    ;
    lemma_speed_relaxation(v, p);
    lemma_relax_between(v, p);
    assert(vadd(v, (0, 0)) == v);
    let t = relax_target(v, lim, s);
    let r = relax_spec(v, p);
    assert(within_guard(r, p));
    assert(guard(r, p) == r);
    if s <= 2 * v.0 || 2 * v.0 <= -s {
        lemma_target_moves(v.0, lim, s);
    } else {
        assert(s <= 2 * v.1 || 2 * v.1 <= -s) by (nonlinear_arith)
            requires
                -s < 2 * v.0 < s,
                norm_sq(v) == v.0 * v.0 + v.1 * v.1,
                norm_sq(v) >= s * s,
                s > 0,
        ;
        lemma_target_moves(v.1, lim, s);
    }
    assert(t != v);
    assert(r != v);
    lemma_between_squares(t.0, r.0, v.0);
    lemma_between_squares(t.1, r.1, v.1);
    if r.0 != v.0 {
        assert(r.0 * r.0 < v.0 * v.0) by (nonlinear_arith)
            requires
                between(t.0, r.0, v.0),
                r.0 != v.0,
        ;
    } else {
        assert(r.1 != v.1);
        assert(r.1 * r.1 < v.1 * v.1) by (nonlinear_arith)
            requires
                between(t.1, r.1, v.1),
                r.1 != v.1,
        ;
    }
}

} // verus!
