//! The write phase of one tick: apply each agent's velocity delta,
//! clamp the velocity magnitude into the configured speed band, take
//! one explicit Euler position step, and move the agent's entry in the
//! spatial index to its new position.

use vstd::arithmetic::div_mod::{
    lemma_div_by_multiple, lemma_div_is_ordered, lemma_fundamental_div_mod,
};
use vstd::multiset::Multiset;
use vstd::prelude::*;

use crate::flock::{bounded_state, FACTOR_LIMIT};
use crate::geometry::{AgentState, Vec2I};
use crate::mathx::{abs_i, div_trunc, mul_div, norm_sq, sqrt_floor, vec_norm};
use crate::quadtree::{seq_positions, QuadTree};

verus! {

broadcast use vstd::multiset::group_multiset_axioms, vstd::seq_lib::group_to_multiset_ensures;

/// First clamping stage, x component: a nonzero vector whose magnitude
/// is below `min_s` is scaled up to `min_s` (dividing by the floor of
/// its magnitude); any other vector is unchanged. The zero vector has
/// no direction and stays zero.
pub open spec fn raise_x(v: Vec2I, min_s: int) -> int {
    let l = sqrt_floor(norm_sq(v) as nat) as int;
    if v.x == 0 && v.y == 0 {
        0
    } else if l < min_s {
        div_trunc(v.x * min_s, l)
    } else {
        v.x as int
    }
}

/// y component of the first stage.
pub open spec fn raise_y(v: Vec2I, min_s: int) -> int {
    let l = sqrt_floor(norm_sq(v) as nat) as int;
    if v.x == 0 && v.y == 0 {
        0
    } else if l < min_s {
        div_trunc(v.y * min_s, l)
    } else {
        v.y as int
    }
}

/// The vector after the first clamping stage.
pub open spec fn raised(v: Vec2I, min_s: int) -> Vec2I {
    Vec2I { x: raise_x(v, min_s) as i64, y: raise_y(v, min_s) as i64 }
}

/// `v` with its magnitude clamped into `[min_s, max_s]`, x component:
/// the vector is first raised to the band floor (`raise_x`), then — so
/// that the raising step can never overshoot the ceiling when rounding
/// underestimates a small magnitude — scaled down to `max_s` if the
/// result still lies above the band.
pub open spec fn clamp_x(v: Vec2I, min_s: int, max_s: int) -> int {
    let u = raised(v, min_s);
    let l = sqrt_floor(norm_sq(u) as nat) as int;
    if l > max_s {
        div_trunc(u.x * max_s, l)
    } else {
        u.x as int
    }
}

/// y component of the same clamping.
pub open spec fn clamp_y(v: Vec2I, min_s: int, max_s: int) -> int {
    let u = raised(v, min_s);
    let l = sqrt_floor(norm_sq(u) as nat) as int;
    if l > max_s {
        div_trunc(u.y * max_s, l)
    } else {
        u.y as int
    }
}

/// The magnitude of the truncated quotient `v * m / l`, as a quotient
/// of magnitudes.
proof fn lemma_scale_abs(vx: int, m: int, l: int)
    requires
        l >= 1,
        m >= 0,
    ensures
        abs_i(div_trunc(vx * m, l)) == (abs_i(vx) * m) / l,
{
    if vx >= 0 {
        assert(vx * m >= 0) by (nonlinear_arith)
            requires
                vx >= 0,
                m >= 0,
        ;
        vstd::arithmetic::div_mod::lemma_div_pos_is_pos(vx * m, l);
    } else {
        assert(-(vx * m) == (-vx) * m && (-vx) * m >= 0) by (nonlinear_arith)
            requires
                vx < 0,
                m >= 0,
        ;
        vstd::arithmetic::div_mod::lemma_div_pos_is_pos((-vx) * m, l);
    }
}

/// Scales `v` to magnitude `m`, dividing by `l`, the floor of `v`'s
/// magnitude. The result's squared magnitude lands just below `m^2`
/// (never under `m^2 - 4m - 2`), and when this is a genuine
/// scale-down (`l > m`) it also stays within `m^2 + 2m`.
#[verifier::rlimit(80)]
fn scale_vec(v: Vec2I, m: i64, l: i64) -> (r: Vec2I)
    requires
        1 <= l,
        0 <= m <= FACTOR_LIMIT,
        abs_i(v.x as int) <= l,
        abs_i(v.y as int) <= l,
        l * l <= norm_sq(v),
        norm_sq(v) < (l + 1) * (l + 1),
    ensures
        r.x == div_trunc(v.x as int * m as int, l as int),
        r.y == div_trunc(v.y as int * m as int, l as int),
        abs_i(r.x as int) <= m,
        abs_i(r.y as int) <= m,
        norm_sq(r) > m * m - 4 * m - 2,
        l > m ==> norm_sq(r) <= m * m + 2 * m,
{
    let rx = mul_div(v.x, m, l);
    let ry = mul_div(v.y, m, l);
    proof {
        lemma_scale_abs(v.x as int, m as int, l as int);
        lemma_scale_abs(v.y as int, m as int, l as int);
        let avx = abs_i(v.x as int);
        let avy = abs_i(v.y as int);
        let arx = abs_i(rx as int);
        let ary = abs_i(ry as int);
        lemma_near_band(v.x as int, v.y as int, rx as int, ry as int, l as int, m as int);
        assert(norm_sq(Vec2I { x: rx, y: ry }) == arx * arx + ary * ary) by (nonlinear_arith)
            requires
                rx as int == arx || rx as int == -arx,
                ry as int == ary || ry as int == -ary,
        ;
        if l > m {
            lemma_fundamental_div_mod(avx * (m as int), l as int);
            lemma_fundamental_div_mod(avy * (m as int), l as int);
            vstd::arithmetic::div_mod::lemma_mod_bound(avx * (m as int), l as int);
            vstd::arithmetic::div_mod::lemma_mod_bound(avy * (m as int), l as int);
            let qx = (avx * (m as int)) / (l as int);
            let remx = (avx * (m as int)) % (l as int);
            let qy = (avy * (m as int)) / (l as int);
            let remy = (avy * (m as int)) % (l as int);
            assert(arx == qx && ary == qy);
            assert(qx * (l as int) <= avx * (m as int)) by (nonlinear_arith)
                requires
                    avx * (m as int) == (l as int) * qx + remx,
                    remx >= 0,
            ;
            assert(qy * (l as int) <= avy * (m as int)) by (nonlinear_arith)
                requires
                    avy * (m as int) == (l as int) * qy + remy,
                    remy >= 0,
            ;
            assert(arx * arx * ((l as int) * (l as int)) <= avx * avx * ((m as int) * (m as int))
                && ary * ary * ((l as int) * (l as int)) <= avy * avy * ((m as int) * (
            m as int))) by (nonlinear_arith)
                requires
                    arx >= 0,
                    ary >= 0,
                    avx >= 0,
                    avy >= 0,
                    l as int >= 1,
                    m >= 0,
                    arx * (l as int) <= avx * (m as int),
                    ary * (l as int) <= avy * (m as int),
            ;
            assert(avx * avx + avy * avy == norm_sq(v)) by (nonlinear_arith)
                requires
                    v.x as int == avx || v.x as int == -avx,
                    v.y as int == avy || v.y as int == -avy,
            ;
            let nr = arx * arx + ary * ary;
            let nv = avx * avx + avy * avy;
            let li = l as int;
            let mi = m as int;
            assert(nv <= li * li + 2 * li) by (nonlinear_arith)
                requires
                    nv < (li + 1) * (li + 1),
            ;
            assert(nr * (li * li) <= nv * (mi * mi)) by (nonlinear_arith)
                requires
                    arx * arx * (li * li) <= avx * avx * (mi * mi),
                    ary * ary * (li * li) <= avy * avy * (mi * mi),
                    nr == arx * arx + ary * ary,
                    nv == avx * avx + avy * avy,
            ;
            assert(nr <= mi * mi + 2 * mi) by (nonlinear_arith)
                requires
                    nr * (li * li) <= nv * (mi * mi),
                    nv <= li * li + 2 * li,
                    li >= mi + 1,
                    mi >= 0,
                    nr >= 0,
            ;
        }
    }
    Vec2I { x: rx, y: ry }
}

/// Clamps the magnitude of `v` into the configured speed band,
/// preserving its direction up to rounding: a vector below the band is
/// raised to `min_s`, one above it is lowered to `max_s`, one inside
/// it is unchanged. Raising divides by the floor of a small magnitude
/// and can overshoot, so the raised vector is checked again and
/// lowered if it left the band upward. The zero vector has no
/// direction and stays zero.
///
/// Guarantees proved here:
/// - the result follows `clamp_x` / `clamp_y` exactly;
/// - each component is bounded by `max_s`;
/// - the squared magnitude is always below `(max_s + 1)^2`;
/// - a nonzero vector always leaves with squared magnitude above
///   `min_s^2 - 4*min_s - 2`;
/// - a vector already inside the band is unchanged.
#[verifier::rlimit(80)]
pub fn clamp_speed(v: Vec2I, min_s: i64, max_s: i64) -> (r: Vec2I)
    requires
        0 <= min_s <= max_s <= FACTOR_LIMIT,
        -1_000_000_000 <= v.x <= 1_000_000_000,
        -1_000_000_000 <= v.y <= 1_000_000_000,
    ensures
        r.x == clamp_x(v, min_s as int, max_s as int),
        r.y == clamp_y(v, min_s as int, max_s as int),
        abs_i(r.x as int) <= max_s,
        abs_i(r.y as int) <= max_s,
        norm_sq(r) < (max_s + 1) * (max_s + 1),
        !(v.x == 0 && v.y == 0) ==> norm_sq(r) > min_s * min_s - 4 * min_s - 2,
        min_s * min_s <= norm_sq(v) < (max_s + 1) * (max_s + 1) ==> r == v,
{
    if v.x == 0 && v.y == 0 {
        proof {
            assert(norm_sq(v) == 0) by (nonlinear_arith)
                requires
                    v.x == 0,
                    v.y == 0,
            ;
            assert((max_s + 1) * (max_s + 1) >= 1) by (nonlinear_arith)
                requires
                    max_s >= 0,
            ;
        }
        return v;
    }
    proof {
        assert(norm_sq(v) <= 2_000_000_000_000_000_000int) by (nonlinear_arith)
            requires
                -1_000_000_000int <= v.x as int <= 1_000_000_000int,
                -1_000_000_000int <= v.y as int <= 1_000_000_000int,
        ;
    }
    let l = vec_norm(v);
    let ghost boosted = l < min_s;
    let u = if l < min_s {
        let b = scale_vec(v, min_s, l);
        proof {
            assert(norm_sq(v) < min_s * min_s) by (nonlinear_arith)
                requires
                    norm_sq(v) < (l as int + 1) * (l as int + 1),
                    (l as int) + 1 <= min_s,
                    l >= 0,
            ;
            assert(b == raised(v, min_s as int));
        }
        b
    } else {
        proof {
            assert(v == raised(v, min_s as int));
            assert(norm_sq(v) >= min_s * min_s) by (nonlinear_arith)
                requires
                    norm_sq(v) >= (l as int) * (l as int),
                    l as int >= min_s >= 0,
            ;
        }
        v
    };
    let lu = vec_norm(u);
    if lu > max_s {
        let r = scale_vec(u, max_s, lu);
        proof {
            assert((max_s + 1) * (max_s + 1) == max_s * max_s + 2 * max_s + 1) by (nonlinear_arith);
            assert(norm_sq(r) >= 0) by (nonlinear_arith);
            assert(norm_sq(r) > min_s * min_s - 4 * min_s - 2) by (nonlinear_arith)
                requires
                    norm_sq(r) > max_s * max_s - 4 * max_s - 2,
                    norm_sq(r) >= 0,
                    max_s >= min_s >= 0,
            ;
            if !boosted {
                assert(norm_sq(v) >= (max_s + 1) * (max_s + 1)) by (nonlinear_arith)
                    requires
                        norm_sq(v) >= (lu as int) * (lu as int),
                        lu as int >= max_s + 1,
                        max_s >= 0,
                ;
            }
        }
        r
    } else {
        proof {
            assert(norm_sq(u) < (max_s + 1) * (max_s + 1)) by (nonlinear_arith)
                requires
                    norm_sq(u) < (lu as int + 1) * (lu as int + 1),
                    lu as int + 1 <= max_s + 1,
                    lu >= 0,
            ;
            if !boosted {
                assert(norm_sq(u) > min_s * min_s - 4 * min_s - 2);
            }
            assert(abs_i(u.x as int) <= lu && abs_i(u.y as int) <= lu);
        }
        u
    }
}

/// A vector scaled to magnitude `m` by truncating division lands close
/// below `m`: its squared magnitude exceeds `m^2 - 4m - 2`.
proof fn lemma_near_band(vx: int, vy: int, rx: int, ry: int, l: int, m: int)
    requires
        l >= 1,
        m >= 0,
        l * l <= vx * vx + vy * vy,
        abs_i(vx) <= l,
        abs_i(vy) <= l,
        rx == div_trunc(vx * m, l),
        ry == div_trunc(vy * m, l),
    ensures
        rx * rx + ry * ry > m * m - 4 * m - 2,
{
    lemma_scale_abs(vx, m, l);
    lemma_scale_abs(vy, m, l);
    let avx = abs_i(vx);
    let avy = abs_i(vy);
    let arx = abs_i(rx);
    let ary = abs_i(ry);
    let ca = avx * m;
    let cb = avy * m;
    lemma_fundamental_div_mod(ca, l);
    lemma_fundamental_div_mod(cb, l);
    vstd::arithmetic::div_mod::lemma_mod_bound(ca, l);
    vstd::arithmetic::div_mod::lemma_mod_bound(cb, l);
    assert(ca >= 0 && cb >= 0) by (nonlinear_arith)
        requires
            avx >= 0,
            avy >= 0,
            m >= 0,
            ca == avx * m,
            cb == avy * m,
    ;
    assert(ca < l * (arx + 1) && cb < l * (ary + 1)) by (nonlinear_arith)
        requires
            ca == l * (ca / l) + ca % l,
            cb == l * (cb / l) + cb % l,
            arx == ca / l,
            ary == cb / l,
            ca % l < l,
            cb % l < l,
    ;
    assert(ca * ca < (l * (arx + 1)) * (l * (arx + 1)) && cb * cb < (l * (ary + 1)) * (l * (ary
        + 1))) by (nonlinear_arith)
        requires
            0 <= ca,
            ca < l * (arx + 1),
            0 <= cb,
            cb < l * (ary + 1),
    ;
    assert(ca * ca + cb * cb == (avx * avx + avy * avy) * (m * m)) by (nonlinear_arith)
        requires
            ca == avx * m,
            cb == avy * m,
    ;
    assert(avx * avx + avy * avy == vx * vx + vy * vy) by (nonlinear_arith)
        requires
            vx == avx || vx == -avx,
            vy == avy || vy == -avy,
    ;
    assert((l * l) * (m * m) <= (avx * avx + avy * avy) * (m * m)) by (nonlinear_arith)
        requires
            l * l <= avx * avx + avy * avy,
            m >= 0,
    ;
    assert((l * (arx + 1)) * (l * (arx + 1)) + (l * (ary + 1)) * (l * (ary + 1)) == (l * l) * ((arx
        + 1) * (arx + 1) + (ary + 1) * (ary + 1))) by (nonlinear_arith);
    assert(m * m < (arx + 1) * (arx + 1) + (ary + 1) * (ary + 1)) by (nonlinear_arith)
        requires
            (l * l) * (m * m) < (l * l) * ((arx + 1) * (arx + 1) + (ary + 1) * (ary + 1)),
            l >= 1,
    ;
    assert(ca <= l * m && cb <= l * m) by (nonlinear_arith)
        requires
            avx <= l,
            avy <= l,
            m >= 0,
            ca == avx * m,
            cb == avy * m,
    ;
    lemma_div_is_ordered(ca, l * m, l);
    lemma_div_is_ordered(cb, l * m, l);
    lemma_div_by_multiple(m, l);
    assert(l * m == m * l) by (nonlinear_arith);
    assert(arx <= m && ary <= m);
    assert(rx * rx + ry * ry == arx * arx + ary * ary) by (nonlinear_arith)
        requires
            rx == arx || rx == -arx,
            ry == ary || ry == -ary,
    ;
    assert(arx * arx + ary * ary > m * m - 4 * m - 2) by (nonlinear_arith)
        requires
            m * m < (arx + 1) * (arx + 1) + (ary + 1) * (ary + 1),
            arx <= m,
            ary <= m,
            arx >= 0,
            ary >= 0,
    ;
}

/// The velocity an agent carries into the clamp: its previous velocity
/// plus its tick delta.
pub open spec fn pre_vel(a: AgentState, d: Vec2I) -> Vec2I {
    Vec2I { x: (a.velocity.x + d.x) as i64, y: (a.velocity.y + d.y) as i64 }
}

/// One agent after the write phase: clamped velocity, position stepped
/// by it.
pub open spec fn stepped(a: AgentState, d: Vec2I, min_s: int, max_s: int) -> AgentState {
    let cv = pre_vel(a, d);
    let nvx = clamp_x(cv, min_s, max_s);
    let nvy = clamp_y(cv, min_s, max_s);
    AgentState {
        position: Vec2I { x: (a.position.x + nvx) as i64, y: (a.position.y + nvy) as i64 },
        velocity: Vec2I { x: nvx as i64, y: nvy as i64 },
    }
}

/// The positions the index holds for the already-stepped prefix: each
/// stepped agent's new position, except those that left the root
/// boundary (their entries are removed and the out-of-bounds insertion
/// is rejected).
pub open spec fn stepped_in_positions(
    agents: Seq<AgentState>,
    ds: Seq<Vec2I>,
    min_s: int,
    max_s: int,
    boundary: crate::geometry::Rectangle,
) -> Multiset<Vec2I>
    decreases agents.len(),
{
    if agents.len() == 0 {
        Multiset::empty()
    } else {
        let rest = stepped_in_positions(
            agents.drop_last(),
            ds.drop_last(),
            min_s,
            max_s,
            boundary,
        );
        let ns = stepped(agents.last(), ds[agents.len() - 1], min_s, max_s);
        if boundary.contains_pt(ns.position) {
            rest.insert(ns.position)
        } else {
            rest
        }
    }
}

/// The (position, velocity) pairs the index holds for the
/// already-stepped prefix: each stepped agent, except those whose new
/// position left the root boundary (their entries are removed and the
/// out-of-bounds insertion is rejected).
pub open spec fn stepped_in_entries(
    agents: Seq<AgentState>,
    ds: Seq<Vec2I>,
    min_s: int,
    max_s: int,
    boundary: crate::geometry::Rectangle,
) -> Multiset<AgentState>
    decreases agents.len(),
{
    if agents.len() == 0 {
        Multiset::empty()
    } else {
        let rest = stepped_in_entries(agents.drop_last(), ds.drop_last(), min_s, max_s, boundary);
        let ns = stepped(agents.last(), ds[agents.len() - 1], min_s, max_s);
        if boundary.contains_pt(ns.position) {
            rest.insert(ns)
        } else {
            rest
        }
    }
}

/// No two agents share a position, and no agent's stepped position
/// lands on another agent's old position. Under this condition the
/// index's by-position removal is unambiguous, so the write phase
/// keeps the index equal to the agents at the pair level, velocities
/// included.
pub open spec fn distinct_positions(
    agents: Seq<AgentState>,
    ds: Seq<Vec2I>,
    min_s: int,
    max_s: int,
) -> bool {
    &&& agents.len() == ds.len()
    &&& (forall|i: int, j: int|
        0 <= i < j < agents.len() ==> (#[trigger] agents[i]).position != (
        #[trigger] agents[j]).position)
    &&& (forall|i: int, j: int|
        0 <= i < agents.len() && 0 <= j < agents.len() && i != j ==> (#[trigger] stepped(
            agents[j],
            ds[j],
            min_s,
            max_s,
        )).position != (#[trigger] agents[i]).position)
}

/// Every pair in the stepped-prefix multiset is some agent's stepped
/// pair.
proof fn lemma_stepped_entries_member(
    agents: Seq<AgentState>,
    ds: Seq<Vec2I>,
    min_s: int,
    max_s: int,
    boundary: crate::geometry::Rectangle,
    e: AgentState,
)
    requires
        agents.len() == ds.len(),
        stepped_in_entries(agents, ds, min_s, max_s, boundary).count(e) > 0,
    ensures
        exists|j: int|
            0 <= j < agents.len() && e == stepped(#[trigger] agents[j], ds[j], min_s, max_s),
    decreases agents.len(),
{
    let ns = stepped(agents.last(), ds[agents.len() - 1], min_s, max_s);
    if e == ns && boundary.contains_pt(ns.position) {
        assert(agents[agents.len() - 1] == agents.last());
        assert(e == stepped(agents[agents.len() - 1], ds[agents.len() - 1], min_s, max_s));
    } else {
        assert(stepped_in_entries(
            agents.drop_last(),
            ds.drop_last(),
            min_s,
            max_s,
            boundary,
        ).count(e) > 0);
        lemma_stepped_entries_member(agents.drop_last(), ds.drop_last(), min_s, max_s, boundary, e);
        let j = choose|j: int|
            0 <= j < agents.drop_last().len() && e == stepped(
                #[trigger] agents.drop_last()[j],
                ds.drop_last()[j],
                min_s,
                max_s,
            );
        assert(agents.drop_last()[j] == agents[j] && ds.drop_last()[j] == ds[j]);
        assert(e == stepped(agents[j], ds[j], min_s, max_s));
    }
}

/// When every stepped position stays inside the root boundary, the
/// pair multiset of the stepped prefix is exactly the updated agents':
/// together with `integrate`'s pair-level clause, the index then
/// mirrors the updated flock pair for pair.
pub proof fn lemma_entries_match_updated(
    agents: Seq<AgentState>,
    ds: Seq<Vec2I>,
    updated: Seq<AgentState>,
    min_s: int,
    max_s: int,
    boundary: crate::geometry::Rectangle,
)
    requires
        agents.len() == ds.len(),
        updated.len() == agents.len(),
        forall|j: int|
            0 <= j < agents.len() ==> #[trigger] updated[j] == stepped(
                agents[j],
                ds[j],
                min_s,
                max_s,
            ),
        forall|j: int|
            0 <= j < agents.len() ==> boundary.contains_pt((#[trigger] updated[j]).position),
    ensures
        stepped_in_entries(agents, ds, min_s, max_s, boundary) == updated.to_multiset(),
    decreases agents.len(),
{
    if agents.len() == 0 {
        assert(updated =~= Seq::<AgentState>::empty());
        assert(updated.to_multiset() =~= Multiset::<AgentState>::empty());
    } else {
        lemma_entries_match_updated(
            agents.drop_last(),
            ds.drop_last(),
            updated.drop_last(),
            min_s,
            max_s,
            boundary,
        );
        let ns = stepped(agents.last(), ds[agents.len() - 1], min_s, max_s);
        assert(updated[agents.len() - 1] == ns);
        assert(boundary.contains_pt(ns.position));
        assert(updated =~= updated.drop_last().push(ns));
        assert(updated.drop_last().push(ns).to_multiset() == updated.drop_last(
        ).to_multiset().insert(ns));
    }
}

/// One whole simulation tick: the read phase (`compute_deltas`) over
/// the immutable index snapshot, then the write phase (`integrate`),
/// strictly in that order — no agent's delta is computed after any
/// position has been advanced this tick. Returns the updated agents;
/// the index is re-synchronised with them.
///
/// The per-agent deltas are existential here, but each is pinned down
/// by `tick_delta_ok`: it is the delta the force model assigns to the
/// neighbour multiset the index held for that agent.
pub fn advance_tick(
    agents: &Vec<AgentState>,
    att: &Vec<crate::flock::AttractionPoint>,
    tree: &mut QuadTree,
    st: &crate::flock::SimulationSettings,
) -> (updated: Vec<AgentState>)
    requires
        old(tree).wf(),
        st.valid(),
        old(tree).entries().len() <= crate::flock::COUNT_LIMIT,
        crate::flock::entries_bounded(old(tree).entries()),
        forall|i: int| 0 <= i < agents@.len() ==> bounded_state(#[trigger] agents@[i]),
        att@.len() <= crate::flock::COUNT_LIMIT,
        forall|i: int|
            0 <= i < att@.len() ==> crate::flock::bounded_vec((#[trigger] att@[i]).position),
        old(tree).positions() == seq_positions(agents@),
        old(tree).entries().len() + agents@.len() <= usize::MAX,
    ensures
        final(tree).wf(),
        final(tree).bounds() == old(tree).bounds(),
        final(tree).cap() == old(tree).cap(),
        updated@.len() == agents@.len(),
        exists|ds: Seq<Vec2I>|
            {
                &&& (#[trigger] ds.len()) == agents@.len()
                &&& (forall|i: int|
                    0 <= i < agents@.len() ==> crate::flock::tick_delta_ok(
                        #[trigger] ds[i],
                        agents@[i],
                        i % 2 == 0,
                        old(tree).entries(),
                        att@,
                        *st,
                    ))
                &&& (forall|i: int|
                    0 <= i < agents@.len() ==> #[trigger] updated@[i] == stepped(
                        agents@[i],
                        ds[i],
                        st.min_speed as int,
                        st.max_speed as int,
                    ))
                &&& final(tree).positions() == stepped_in_positions(
                    agents@,
                    ds,
                    st.min_speed as int,
                    st.max_speed as int,
                    old(tree).bounds(),
                )
                &&& old(tree).entries() == agents@.to_multiset() && distinct_positions(
                    agents@,
                    ds,
                    st.min_speed as int,
                    st.max_speed as int,
                ) ==> final(tree).entries() == stepped_in_entries(
                    agents@,
                    ds,
                    st.min_speed as int,
                    st.max_speed as int,
                    old(tree).bounds(),
                )
            },
{
    let deltas = crate::flock::compute_deltas(agents, tree, att, st);
    let updated = integrate(agents, &deltas, tree, st);
    proof {
        assert(deltas@.len() == agents@.len());
    }
    updated
}

/// Taking a sequence's positions from the front instead of the back.
proof fn lemma_seq_positions_first(s: Seq<AgentState>)
    requires
        s.len() > 0,
    ensures
        seq_positions(s) == seq_positions(s.drop_first()).insert(s.first().position),
    decreases s.len(),
{
    if s.len() == 1 {
        assert(s.drop_last() =~= s.drop_first());
        assert(s.last() == s.first());
    } else {
        lemma_seq_positions_first(s.drop_last());
        assert(s.drop_last().drop_first() =~= s.drop_first().drop_last());
        assert(s.drop_last().first() == s.first());
        assert(s.drop_first().last() == s.last());
        assert(seq_positions(s.drop_last().drop_first()).insert(s.first().position).insert(
            s.last().position,
        ) =~= seq_positions(s.drop_first().drop_last()).insert(s.last().position).insert(
            s.first().position,
        ));
    }
}

/// The write phase of one tick. Takes the agents as they were read,
/// the per-agent deltas the read phase produced, and the index that
/// mirrors the agents; returns the updated agents and re-synchronises
/// the index entry of each agent with its new position and velocity.
///
/// The velocity-clamp guarantees of `clamp_speed` hold for every
/// agent: after this phase no agent's squared speed reaches
/// `(max_speed + 1)^2`, and every agent whose pre-clamp velocity was
/// nonzero keeps a squared speed above `min_speed^2 - 4*min_speed - 2`.
///
/// The index is re-synchronised position by position; when the flock's
/// positions are unambiguous (`distinct_positions`) and the index
/// mirrored the agents pair for pair, it still does afterwards,
/// velocities included.
#[verifier::rlimit(80)]
pub fn integrate(
    agents: &Vec<AgentState>,
    deltas: &Vec<Vec2I>,
    tree: &mut QuadTree,
    st: &crate::flock::SimulationSettings,
) -> (updated: Vec<AgentState>)
    requires
        old(tree).wf(),
        st.valid(),
        agents@.len() == deltas@.len(),
        forall|i: int| 0 <= i < agents@.len() ==> bounded_state(#[trigger] agents@[i]),
        forall|i: int|
            0 <= i < deltas@.len() ==> abs_i((#[trigger] deltas@[i]).x as int) <= 5 * FACTOR_LIMIT
                && abs_i(deltas@[i].y as int) <= 5 * FACTOR_LIMIT,
        old(tree).positions() == seq_positions(agents@),
        old(tree).entries().len() + agents@.len() <= usize::MAX,
    ensures
        final(tree).wf(),
        final(tree).bounds() == old(tree).bounds(),
        final(tree).cap() == old(tree).cap(),
        updated@.len() == agents@.len(),
        forall|i: int|
            0 <= i < agents@.len() ==> #[trigger] updated@[i] == stepped(
                agents@[i],
                deltas@[i],
                st.min_speed as int,
                st.max_speed as int,
            ),
        final(tree).positions() == stepped_in_positions(
            agents@,
            deltas@,
            st.min_speed as int,
            st.max_speed as int,
            old(tree).bounds(),
        ),
        old(tree).entries() == agents@.to_multiset() && distinct_positions(
            agents@,
            deltas@,
            st.min_speed as int,
            st.max_speed as int,
        ) ==> final(tree).entries() == stepped_in_entries(
            agents@,
            deltas@,
            st.min_speed as int,
            st.max_speed as int,
            old(tree).bounds(),
        ),
        forall|i: int|
            0 <= i < agents@.len() ==> {
                let pv = pre_vel(agents@[i], deltas@[i]);
                let nv = (#[trigger] updated@[i]).velocity;
                &&& norm_sq(nv) < (st.max_speed + 1) * (st.max_speed + 1)
                &&& !(pv.x == 0 && pv.y == 0) ==> norm_sq(nv) > st.min_speed * st.min_speed - 4
                    * st.min_speed - 2
            },
        forall|i: int|
            0 <= i < agents@.len() ==> abs_i((#[trigger] updated@[i]).velocity.x as int)
                <= st.max_speed && abs_i(updated@[i].velocity.y as int) <= st.max_speed && abs_i(
                updated@[i].position.x as int,
            ) <= 501_000_000 && abs_i(updated@[i].position.y as int) <= 501_000_000,
{
    let ghost min_i = st.min_speed as int;
    let ghost max_i = st.max_speed as int;
    let ghost bnd = tree.bounds();
    let ghost sync = old(tree).entries() == agents@.to_multiset() && distinct_positions(
        agents@,
        deltas@,
        min_i,
        max_i,
    );
    let mut updated: Vec<AgentState> = Vec::new();
    let mut i: usize = 0;
    proof {
        assert(agents@.skip(0) =~= agents@);
        assert(agents@.take(0).len() == 0);
        assert(stepped_in_positions(agents@.take(0), deltas@.take(0), min_i, max_i, bnd)
            =~= Multiset::<Vec2I>::empty());
        assert(seq_positions(agents@).add(Multiset::<Vec2I>::empty()) =~= seq_positions(agents@));
        if sync {
            assert(stepped_in_entries(agents@.take(0), deltas@.take(0), min_i, max_i, bnd)
                =~= Multiset::<AgentState>::empty());
            assert(agents@.to_multiset().add(Multiset::<AgentState>::empty())
                =~= agents@.to_multiset());
        }
    }
    while i < agents.len()
        invariant
            tree.wf(),
            st.valid(),
            min_i == st.min_speed as int,
            max_i == st.max_speed as int,
            bnd == old(tree).bounds(),
            tree.bounds() == old(tree).bounds(),
            tree.cap() == old(tree).cap(),
            agents@.len() == deltas@.len(),
            forall|j: int| 0 <= j < agents@.len() ==> bounded_state(#[trigger] agents@[j]),
            forall|j: int|
                0 <= j < deltas@.len() ==> abs_i((#[trigger] deltas@[j]).x as int) <= 5
                    * FACTOR_LIMIT && abs_i(deltas@[j].y as int) <= 5 * FACTOR_LIMIT,
            old(tree).entries().len() + agents@.len() <= usize::MAX,
            i <= agents@.len(),
            updated@.len() == i,
            forall|j: int|
                0 <= j < i ==> #[trigger] updated@[j] == stepped(
                    agents@[j],
                    deltas@[j],
                    min_i,
                    max_i,
                ),
            tree.positions() == seq_positions(agents@.skip(i as int)).add(
                stepped_in_positions(
                    agents@.take(i as int),
                    deltas@.take(i as int),
                    min_i,
                    max_i,
                    bnd,
                ),
            ),
            sync == (old(tree).entries() == agents@.to_multiset() && distinct_positions(
                agents@,
                deltas@,
                min_i,
                max_i,
            )),
            sync ==> tree.entries() == agents@.skip(i as int).to_multiset().add(
                stepped_in_entries(
                    agents@.take(i as int),
                    deltas@.take(i as int),
                    min_i,
                    max_i,
                    bnd,
                ),
            ),
            tree.entries().len() <= old(tree).entries().len() + i,
            forall|j: int|
                0 <= j < i ==> {
                    let pv = pre_vel(agents@[j], deltas@[j]);
                    let nv = (#[trigger] updated@[j]).velocity;
                    &&& norm_sq(nv) < (max_i + 1) * (max_i + 1)
                    &&& !(pv.x == 0 && pv.y == 0) ==> norm_sq(nv) > min_i * min_i - 4 * min_i - 2
                },
            forall|j: int|
                0 <= j < i ==> abs_i((#[trigger] updated@[j]).velocity.x as int) <= st.max_speed
                    && abs_i(updated@[j].velocity.y as int) <= st.max_speed && abs_i(
                    updated@[j].position.x as int,
                ) <= 501_000_000 && abs_i(updated@[j].position.y as int) <= 501_000_000,
        decreases agents@.len() - i,
    {
        let a = agents[i];
        let d = deltas[i];
        let cv = Vec2I { x: a.velocity.x + d.x, y: a.velocity.y + d.y };
        let nv = clamp_speed(cv, st.min_speed, st.max_speed);
        let np = Vec2I { x: a.position.x + nv.x, y: a.position.y + nv.y };
        let ns = AgentState { position: np, velocity: nv };
        proof {
            assert(cv == pre_vel(a, d));
            assert(ns == stepped(a, d, min_i, max_i));
            lemma_seq_positions_first(agents@.skip(i as int));
            assert(agents@.skip(i as int).drop_first() =~= agents@.skip(i as int + 1));
            assert(agents@.skip(i as int).first() == agents@[i as int]);
            assert(tree.positions().count(a.position) >= 1);
        }
        let ghost pre_entries = tree.entries();
        let moved = tree.move_point(a, ns);
        proof {
            assert(moved);
            assert(agents@.take(i as int + 1).drop_last() =~= agents@.take(i as int));
            assert(deltas@.take(i as int + 1).drop_last() =~= deltas@.take(i as int));
            assert(agents@.take(i as int + 1).last() == agents@[i as int]);
            assert(deltas@.take(i as int + 1)[agents@.take(i as int + 1).len() - 1] == deltas@[
                i as int]);
            let rest = seq_positions(agents@.skip(i as int + 1));
            let done = stepped_in_positions(
                agents@.take(i as int),
                deltas@.take(i as int),
                min_i,
                max_i,
                bnd,
            );
            assert((rest.insert(a.position).add(done)).remove(a.position) =~= rest.add(done));
            if bnd.contains_pt(ns.position) {
                assert(tree.positions() =~= rest.add(
                    stepped_in_positions(
                        agents@.take(i as int + 1),
                        deltas@.take(i as int + 1),
                        min_i,
                        max_i,
                        bnd,
                    ),
                ));
            } else {
                assert(tree.positions() =~= rest.add(
                    stepped_in_positions(
                        agents@.take(i as int + 1),
                        deltas@.take(i as int + 1),
                        min_i,
                        max_i,
                        bnd,
                    ),
                ));
            }
            if sync {
                let prefix_a = agents@.skip(i as int).to_multiset();
                let prefix_b = stepped_in_entries(
                    agents@.take(i as int),
                    deltas@.take(i as int),
                    min_i,
                    max_i,
                    bnd,
                );
                let w = choose|e: AgentState|
                    (#[trigger] pre_entries.count(e)) > 0 && e.position == a.position
                        && tree.entries() == (if bnd.contains_pt(ns.position) {
                        pre_entries.remove(e).insert(ns)
                    } else {
                        pre_entries.remove(e)
                    });
                if prefix_a.count(w) > 0 {
                    assert(agents@.skip(i as int).contains(w));
                    let k = choose|k: int|
                        0 <= k < agents@.skip(i as int).len() && agents@.skip(i as int)[k] == w;
                    assert(agents@[i as int + k] == w);
                    if k != 0 {
                        assert(agents@[i as int].position != agents@[i as int + k].position);
                        assert(false);
                    }
                } else {
                    assert(prefix_b.count(w) > 0);
                    lemma_stepped_entries_member(
                        agents@.take(i as int),
                        deltas@.take(i as int),
                        min_i,
                        max_i,
                        bnd,
                        w,
                    );
                    let j = choose|j: int|
                        0 <= j < agents@.take(i as int).len() && w == stepped(
                            #[trigger] agents@.take(i as int)[j],
                            deltas@.take(i as int)[j],
                            min_i,
                            max_i,
                        );
                    assert(agents@.take(i as int)[j] == agents@[j] && deltas@.take(i as int)[j]
                        == deltas@[j]);
                    assert(stepped(agents@[j], deltas@[j], min_i, max_i).position != agents@[
                        i as int].position);
                    assert(false);
                }
                assert(w == agents@[i as int]);
                assert(agents@.skip(i as int)[0] == agents@[i as int]);
                assert(prefix_a.count(agents@[i as int]) > 0);
                assert(agents@.skip(i as int).remove(0) =~= agents@.skip(i as int + 1));
                assert(agents@.skip(i as int).remove(0).to_multiset() == prefix_a.remove(
                    agents@.skip(i as int)[0],
                ));
                assert((prefix_a.add(prefix_b)).remove(agents@[i as int]) =~= prefix_a.remove(
                    agents@[i as int],
                ).add(prefix_b));
                assert(tree.entries() =~= agents@.skip(i as int + 1).to_multiset().add(
                    stepped_in_entries(
                        agents@.take(i as int + 1),
                        deltas@.take(i as int + 1),
                        min_i,
                        max_i,
                        bnd,
                    ),
                ));
            }
        }
        updated.push(ns);
        i = i + 1;
    }
    proof {
        assert(agents@.skip(agents@.len() as int) =~= Seq::<AgentState>::empty());
        assert(seq_positions(Seq::<AgentState>::empty()) =~= Multiset::<Vec2I>::empty());
        assert(agents@.take(agents@.len() as int) =~= agents@);
        assert(deltas@.take(deltas@.len() as int) =~= deltas@);
        assert(tree.positions() =~= stepped_in_positions(agents@, deltas@, min_i, max_i, bnd));
        if sync {
            assert(agents@.skip(agents@.len() as int).to_multiset() =~= Multiset::<
                AgentState,
            >::empty());
            assert(tree.entries() =~= stepped_in_entries(agents@, deltas@, min_i, max_i, bnd));
        }
    }
    updated
}

} // verus!
