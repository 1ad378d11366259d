//! The per-tick flocking force model.
//!
//! For every agent the model queries the spatial index with a square
//! window of half-extent `perception_range`, keeps the candidates
//! within exact Euclidean distance of the agent (the window is only a
//! fast pre-filter), and combines separation, alignment, cohesion,
//! edge avoidance and optional attraction into one velocity delta.
//! Every contribution is normalised to a unit direction (the zero
//! vector normalises to zero, never dividing by zero) and scaled by
//! its configured weight.
//!
//! All reads target the immutable index snapshot: no agent sees
//! another agent's already-updated state within a tick.

use vstd::multiset::Multiset;
use vstd::prelude::*;

use crate::geometry::{AgentState, Rectangle, Vec2I};
use crate::mathx::{abs_i, div_trunc, sn_x, sn_y, sqrt_floor};
use crate::mathx::{div_i64, mul_div, scaled_norm, vec_norm};
use crate::quadtree::{region_filter, QuadTree};

verus! {

broadcast use vstd::multiset::group_multiset_axioms, vstd::seq_lib::group_to_multiset_ensures;

/// Largest coordinate magnitude (position or velocity component) the
/// force model accepts.
pub const COORD_LIMIT: i64 = 500_000_000;

/// Largest weight factor, range, or speed the configuration accepts.
pub const FACTOR_LIMIT: i64 = 1_000_000;

/// Largest perception range, area side or margin the configuration
/// accepts.
pub const RANGE_LIMIT: i64 = 1_000_000_000;

/// Largest number of index entries, neighbours or attraction points
/// the model accepts per tick.
pub const COUNT_LIMIT: usize = 1_000_000;

/// An externally placed point that eligible agents steer towards.
#[derive(Clone, Copy, PartialEq, Eq, Structural, Debug)]
pub struct AttractionPoint {
    pub position: Vec2I,
}

/// Numeric configuration of the simulation, in coordinate steps.
#[derive(Clone, Copy, PartialEq, Eq, Structural, Debug)]
pub struct SimulationSettings {
    pub agent_count: usize,
    pub separation_factor: i64,
    pub alignment_factor: i64,
    pub cohesion_factor: i64,
    pub perception_range: i64,
    pub protected_range: i64,
    pub min_speed: i64,
    pub max_speed: i64,
    pub turn_factor: i64,
    pub attraction_point_factor: i64,
    pub area_width: i64,
    pub area_height: i64,
    pub edge_margin: i64,
}

impl SimulationSettings {
    /// A configuration the model accepts: weights and speeds bounded,
    /// the protected range within the perception range, and the speed
    /// band ordered (`min_speed <= max_speed`).
    pub open spec fn valid(self) -> bool {
        &&& 0 <= self.separation_factor <= FACTOR_LIMIT
        &&& 0 <= self.alignment_factor <= FACTOR_LIMIT
        &&& 0 <= self.cohesion_factor <= FACTOR_LIMIT
        &&& 0 <= self.turn_factor <= FACTOR_LIMIT
        &&& 0 <= self.attraction_point_factor <= FACTOR_LIMIT
        &&& 0 < self.protected_range <= self.perception_range
        &&& self.perception_range <= RANGE_LIMIT
        &&& 0 <= self.min_speed <= self.max_speed <= FACTOR_LIMIT
        &&& 0 < self.area_width <= RANGE_LIMIT
        &&& 0 < self.area_height <= RANGE_LIMIT
        &&& 0 <= self.edge_margin <= RANGE_LIMIT
    }

    /// Startup validation: rejects a configuration (for instance one
    /// with `min_speed > max_speed`) before the first tick.
    pub fn validate(&self) -> (r: bool)
        ensures
            r == self.valid(),
    {
        0 <= self.separation_factor && self.separation_factor <= FACTOR_LIMIT
            && 0 <= self.alignment_factor && self.alignment_factor <= FACTOR_LIMIT
            && 0 <= self.cohesion_factor && self.cohesion_factor <= FACTOR_LIMIT
            && 0 <= self.turn_factor && self.turn_factor <= FACTOR_LIMIT
            && 0 <= self.attraction_point_factor && self.attraction_point_factor <= FACTOR_LIMIT
            && 0 < self.protected_range && self.protected_range <= self.perception_range
            && self.perception_range <= RANGE_LIMIT && 0 <= self.min_speed
            && self.min_speed <= self.max_speed && self.max_speed <= FACTOR_LIMIT
            && 0 < self.area_width && self.area_width <= RANGE_LIMIT && 0 < self.area_height
            && self.area_height <= RANGE_LIMIT && 0 <= self.edge_margin
            && self.edge_margin <= RANGE_LIMIT
    }

    /// Builds a configuration from its options.
    pub fn new(
        agent_count: usize,
        separation_factor: i64,
        alignment_factor: i64,
        cohesion_factor: i64,
        perception_range: i64,
        protected_range: i64,
        min_speed: i64,
        max_speed: i64,
        turn_factor: i64,
        attraction_point_factor: i64,
        area_width: i64,
        area_height: i64,
        edge_margin: i64,
    ) -> (s: SimulationSettings)
        ensures
            s == (SimulationSettings {
                agent_count,
                separation_factor,
                alignment_factor,
                cohesion_factor,
                perception_range,
                protected_range,
                min_speed,
                max_speed,
                turn_factor,
                attraction_point_factor,
                area_width,
                area_height,
                edge_margin,
            }),
    {
        SimulationSettings {
            agent_count,
            separation_factor,
            alignment_factor,
            cohesion_factor,
            perception_range,
            protected_range,
            min_speed,
            max_speed,
            turn_factor,
            attraction_point_factor,
            area_width,
            area_height,
            edge_margin,
        }
    }

    /// The default configuration: 500 agents in a 920x920-unit area,
    /// weights as fractions of a unit step.
    pub fn default() -> (s: SimulationSettings)
        ensures
            s.valid(),
            s == (SimulationSettings {
                agent_count: 500,
                separation_factor: 300,
                alignment_factor: 75,
                cohesion_factor: 55,
                perception_range: 60_000,
                protected_range: 12_000,
                min_speed: 5_000,
                max_speed: 5_100,
                turn_factor: 400,
                attraction_point_factor: 100,
                area_width: 920_000,
                area_height: 920_000,
                edge_margin: 150_000,
            }),
    {
        SimulationSettings {
            agent_count: 500,
            separation_factor: 300,
            alignment_factor: 75,
            cohesion_factor: 55,
            perception_range: 60_000,
            protected_range: 12_000,
            min_speed: 5_000,
            max_speed: 5_100,
            turn_factor: 400,
            attraction_point_factor: 100,
            area_width: 920_000,
            area_height: 920_000,
            edge_margin: 150_000,
        }
    }
}

/// Both components within the model's coordinate bound.
pub open spec fn bounded_vec(v: Vec2I) -> bool {
    &&& -COORD_LIMIT <= v.x <= COORD_LIMIT
    &&& -COORD_LIMIT <= v.y <= COORD_LIMIT
}

/// Position and velocity within the model's coordinate bound.
pub open spec fn bounded_state(e: AgentState) -> bool {
    bounded_vec(e.position) && bounded_vec(e.velocity)
}

/// Squared Euclidean distance between two points.
pub open spec fn dist_sq(a: Vec2I, b: Vec2I) -> int {
    (a.x - b.x) * (a.x - b.x) + (a.y - b.y) * (a.y - b.y)
}

/// The square query window centred on an agent.
pub open spec fn neighbors_window(a: Vec2I, r: int) -> Rectangle {
    Rectangle { position: a, size: Vec2I { x: r as i64, y: r as i64 } }
}

/// Number of candidates within exact distance `r` of `apos`.
pub open spec fn nb_count(apos: Vec2I, s: Seq<AgentState>, r: int) -> int
    decreases s.len(),
{
    if s.len() == 0 {
        0
    } else {
        nb_count(apos, s.drop_last(), r) + if dist_sq(apos, s.last().position) < r * r {
            1int
        } else {
            0int
        }
    }
}

/// Sum of the neighbours' velocity x components.
pub open spec fn nb_vel_x(apos: Vec2I, s: Seq<AgentState>, r: int) -> int
    decreases s.len(),
{
    if s.len() == 0 {
        0
    } else {
        nb_vel_x(apos, s.drop_last(), r) + if dist_sq(apos, s.last().position) < r * r {
            s.last().velocity.x as int
        } else {
            0int
        }
    }
}

/// Sum of the neighbours' velocity y components.
pub open spec fn nb_vel_y(apos: Vec2I, s: Seq<AgentState>, r: int) -> int
    decreases s.len(),
{
    if s.len() == 0 {
        0
    } else {
        nb_vel_y(apos, s.drop_last(), r) + if dist_sq(apos, s.last().position) < r * r {
            s.last().velocity.y as int
        } else {
            0int
        }
    }
}

/// Sum of the neighbours' position x components.
pub open spec fn nb_pos_x(apos: Vec2I, s: Seq<AgentState>, r: int) -> int
    decreases s.len(),
{
    if s.len() == 0 {
        0
    } else {
        nb_pos_x(apos, s.drop_last(), r) + if dist_sq(apos, s.last().position) < r * r {
            s.last().position.x as int
        } else {
            0int
        }
    }
}

/// Sum of the neighbours' position y components.
pub open spec fn nb_pos_y(apos: Vec2I, s: Seq<AgentState>, r: int) -> int
    decreases s.len(),
{
    if s.len() == 0 {
        0
    } else {
        nb_pos_y(apos, s.drop_last(), r) + if dist_sq(apos, s.last().position) < r * r {
            s.last().position.y as int
        } else {
            0int
        }
    }
}

/// Separation contribution of one candidate: for a neighbour inside
/// the protected range, the offset away from it, normalised and scaled
/// by how deep the protected range is violated.
pub open spec fn sep_term_x(apos: Vec2I, e: AgentState, pr: int) -> int {
    let dx = apos.x - e.position.x;
    let dy = apos.y - e.position.y;
    if dx * dx + dy * dy < pr * pr {
        if dx == 0 && dy == 0 {
            0
        } else {
            div_trunc(
                dx * abs_i(pr - sqrt_floor((dx * dx + dy * dy) as nat) as int),
                sqrt_floor((dx * dx + dy * dy) as nat) as int,
            )
        }
    } else {
        0
    }
}

/// y component of the same contribution.
pub open spec fn sep_term_y(apos: Vec2I, e: AgentState, pr: int) -> int {
    let dx = apos.x - e.position.x;
    let dy = apos.y - e.position.y;
    if dx * dx + dy * dy < pr * pr {
        if dx == 0 && dy == 0 {
            0
        } else {
            div_trunc(
                dy * abs_i(pr - sqrt_floor((dx * dx + dy * dy) as nat) as int),
                sqrt_floor((dx * dx + dy * dy) as nat) as int,
            )
        }
    } else {
        0
    }
}

/// Accumulated separation, x component.
pub open spec fn sep_x(apos: Vec2I, s: Seq<AgentState>, pr: int) -> int
    decreases s.len(),
{
    if s.len() == 0 {
        0
    } else {
        sep_x(apos, s.drop_last(), pr) + sep_term_x(apos, s.last(), pr)
    }
}

/// Accumulated separation, y component.
pub open spec fn sep_y(apos: Vec2I, s: Seq<AgentState>, pr: int) -> int
    decreases s.len(),
{
    if s.len() == 0 {
        0
    } else {
        sep_y(apos, s.drop_last(), pr) + sep_term_y(apos, s.last(), pr)
    }
}

/// Edge avoidance: a fixed turn away from each area edge the agent is
/// within the margin of; forces from several edges add independently.
pub open spec fn turn_x(apos: Vec2I, st: SimulationSettings) -> int {
    (if apos.x < st.edge_margin {
        st.turn_factor as int
    } else {
        0int
    }) + (if apos.x > st.area_width - st.edge_margin {
        -(st.turn_factor as int)
    } else {
        0int
    })
}

/// y component of edge avoidance.
pub open spec fn turn_y(apos: Vec2I, st: SimulationSettings) -> int {
    (if apos.y < st.edge_margin {
        st.turn_factor as int
    } else {
        0int
    }) + (if apos.y > st.area_height - st.edge_margin {
        -(st.turn_factor as int)
    } else {
        0int
    })
}

/// Sum of the attraction points' x coordinates.
pub open spec fn att_sum_x(s: Seq<AttractionPoint>) -> int
    decreases s.len(),
{
    if s.len() == 0 {
        0
    } else {
        att_sum_x(s.drop_last()) + s.last().position.x as int
    }
}

/// Sum of the attraction points' y coordinates.
pub open spec fn att_sum_y(s: Seq<AttractionPoint>) -> int
    decreases s.len(),
{
    if s.len() == 0 {
        0
    } else {
        att_sum_y(s.drop_last()) + s.last().position.y as int
    }
}

/// Weighted separation contribution to the tick delta.
pub open spec fn sep_scaled_x(apos: Vec2I, s: Seq<AgentState>, st: SimulationSettings) -> int {
    sn_x(
        sep_x(apos, s, st.protected_range as int),
        sep_y(apos, s, st.protected_range as int),
        st.separation_factor as int,
    )
}

pub open spec fn sep_scaled_y(apos: Vec2I, s: Seq<AgentState>, st: SimulationSettings) -> int {
    sn_y(
        sep_x(apos, s, st.protected_range as int),
        sep_y(apos, s, st.protected_range as int),
        st.separation_factor as int,
    )
}

/// Weighted edge-avoidance contribution.
pub open spec fn turn_scaled_x(apos: Vec2I, st: SimulationSettings) -> int {
    sn_x(turn_x(apos, st), turn_y(apos, st), st.turn_factor as int)
}

pub open spec fn turn_scaled_y(apos: Vec2I, st: SimulationSettings) -> int {
    sn_y(turn_x(apos, st), turn_y(apos, st), st.turn_factor as int)
}

/// Weighted alignment contribution: steer towards the mean neighbour
/// velocity; zero when there is no neighbour.
pub open spec fn align_term_x(agent: AgentState, s: Seq<AgentState>, st: SimulationSettings) -> int {
    let r = st.perception_range as int;
    let c = nb_count(agent.position, s, r);
    if c == 0 {
        0
    } else {
        sn_x(
            div_trunc(nb_vel_x(agent.position, s, r), c) - agent.velocity.x,
            div_trunc(nb_vel_y(agent.position, s, r), c) - agent.velocity.y,
            st.alignment_factor as int,
        )
    }
}

pub open spec fn align_term_y(agent: AgentState, s: Seq<AgentState>, st: SimulationSettings) -> int {
    let r = st.perception_range as int;
    let c = nb_count(agent.position, s, r);
    if c == 0 {
        0
    } else {
        sn_y(
            div_trunc(nb_vel_x(agent.position, s, r), c) - agent.velocity.x,
            div_trunc(nb_vel_y(agent.position, s, r), c) - agent.velocity.y,
            st.alignment_factor as int,
        )
    }
}

/// Weighted cohesion contribution: steer towards the neighbourhood
/// centroid; zero when there is no neighbour.
pub open spec fn cohesion_term_x(
    agent: AgentState,
    s: Seq<AgentState>,
    st: SimulationSettings,
) -> int {
    let r = st.perception_range as int;
    let c = nb_count(agent.position, s, r);
    if c == 0 {
        0
    } else {
        sn_x(
            div_trunc(nb_pos_x(agent.position, s, r), c) - agent.position.x,
            div_trunc(nb_pos_y(agent.position, s, r), c) - agent.position.y,
            st.cohesion_factor as int,
        )
    }
}

pub open spec fn cohesion_term_y(
    agent: AgentState,
    s: Seq<AgentState>,
    st: SimulationSettings,
) -> int {
    let r = st.perception_range as int;
    let c = nb_count(agent.position, s, r);
    if c == 0 {
        0
    } else {
        sn_y(
            div_trunc(nb_pos_x(agent.position, s, r), c) - agent.position.x,
            div_trunc(nb_pos_y(agent.position, s, r), c) - agent.position.y,
            st.cohesion_factor as int,
        )
    }
}

/// Weighted attraction contribution: an eligible agent steers towards
/// the centroid of the attraction points; exactly zero for an
/// ineligible agent or when there is no attraction point.
pub open spec fn attraction_term_x(
    agent: AgentState,
    attracted: bool,
    att: Seq<AttractionPoint>,
    st: SimulationSettings,
) -> int {
    if !attracted || att.len() == 0 {
        0
    } else {
        sn_x(
            div_trunc(att_sum_x(att), att.len() as int) - agent.position.x,
            div_trunc(att_sum_y(att), att.len() as int) - agent.position.y,
            st.attraction_point_factor as int,
        )
    }
}

pub open spec fn attraction_term_y(
    agent: AgentState,
    attracted: bool,
    att: Seq<AttractionPoint>,
    st: SimulationSettings,
) -> int {
    if !attracted || att.len() == 0 {
        0
    } else {
        sn_y(
            div_trunc(att_sum_x(att), att.len() as int) - agent.position.x,
            div_trunc(att_sum_y(att), att.len() as int) - agent.position.y,
            st.attraction_point_factor as int,
        )
    }
}

/// The whole tick delta for one agent: the sum of its five weighted,
/// normalised contributions.
pub open spec fn delta_x(
    agent: AgentState,
    attracted: bool,
    cands: Seq<AgentState>,
    att: Seq<AttractionPoint>,
    st: SimulationSettings,
) -> int {
    sep_scaled_x(agent.position, cands, st) + turn_scaled_x(agent.position, st) + align_term_x(
        agent,
        cands,
        st,
    ) + cohesion_term_x(agent, cands, st) + attraction_term_x(agent, attracted, att, st)
}

pub open spec fn delta_y(
    agent: AgentState,
    attracted: bool,
    cands: Seq<AgentState>,
    att: Seq<AttractionPoint>,
    st: SimulationSettings,
) -> int {
    sep_scaled_y(agent.position, cands, st) + turn_scaled_y(agent.position, st) + align_term_y(
        agent,
        cands,
        st,
    ) + cohesion_term_y(agent, cands, st) + attraction_term_y(agent, attracted, att, st)
}

/// Zero-neighbour safety: an agent with no candidate within perception
/// range gets exactly zero alignment and zero cohesion delta — the
/// empty mean is defined as zero, not as a division by zero.
pub proof fn lemma_zero_neighbors(agent: AgentState, cands: Seq<AgentState>, st: SimulationSettings)
    requires
        nb_count(agent.position, cands, st.perception_range as int) == 0,
    ensures
        align_term_x(agent, cands, st) == 0,
        align_term_y(agent, cands, st) == 0,
        cohesion_term_x(agent, cands, st) == 0,
        cohesion_term_y(agent, cands, st) == 0,
{
}

/// One step of the candidate scan: how each accumulated quantity grows
/// when the prefix is extended by `s[i]`.
proof fn lemma_prefix_step(apos: Vec2I, s: Seq<AgentState>, i: int, r: int, pr: int)
    requires
        0 <= i < s.len(),
    ensures
        nb_count(apos, s.take(i + 1), r) == nb_count(apos, s.take(i), r) + (if dist_sq(
            apos,
            s[i].position,
        ) < r * r {
            1int
        } else {
            0int
        }),
        nb_vel_x(apos, s.take(i + 1), r) == nb_vel_x(apos, s.take(i), r) + (if dist_sq(
            apos,
            s[i].position,
        ) < r * r {
            s[i].velocity.x as int
        } else {
            0int
        }),
        nb_vel_y(apos, s.take(i + 1), r) == nb_vel_y(apos, s.take(i), r) + (if dist_sq(
            apos,
            s[i].position,
        ) < r * r {
            s[i].velocity.y as int
        } else {
            0int
        }),
        nb_pos_x(apos, s.take(i + 1), r) == nb_pos_x(apos, s.take(i), r) + (if dist_sq(
            apos,
            s[i].position,
        ) < r * r {
            s[i].position.x as int
        } else {
            0int
        }),
        nb_pos_y(apos, s.take(i + 1), r) == nb_pos_y(apos, s.take(i), r) + (if dist_sq(
            apos,
            s[i].position,
        ) < r * r {
            s[i].position.y as int
        } else {
            0int
        }),
        sep_x(apos, s.take(i + 1), pr) == sep_x(apos, s.take(i), pr) + sep_term_x(apos, s[i], pr),
        sep_y(apos, s.take(i + 1), pr) == sep_y(apos, s.take(i), pr) + sep_term_y(apos, s[i], pr),
{
    assert(s.take(i + 1).drop_last() =~= s.take(i));
    assert(s.take(i + 1).last() == s[i]);
}

/// One step of the attraction-point scan.
proof fn lemma_att_prefix_step(s: Seq<AttractionPoint>, i: int)
    requires
        0 <= i < s.len(),
    ensures
        att_sum_x(s.take(i + 1)) == att_sum_x(s.take(i)) + s[i].position.x as int,
        att_sum_y(s.take(i + 1)) == att_sum_y(s.take(i)) + s[i].position.y as int,
{
    assert(s.take(i + 1).drop_last() =~= s.take(i));
    assert(s.take(i + 1).last() == s[i]);
}

/// Computes the tick delta of one agent from the raw candidate list
/// (as the window query returned it) and the attraction points.
#[verifier::rlimit(80)]
pub fn agent_delta(
    agent: AgentState,
    attracted: bool,
    cands: &Vec<AgentState>,
    att: &Vec<AttractionPoint>,
    st: &SimulationSettings,
) -> (d: Vec2I)
    requires
        st.valid(),
        bounded_state(agent),
        cands@.len() <= COUNT_LIMIT,
        forall|i: int| 0 <= i < cands@.len() ==> bounded_state(#[trigger] cands@[i]),
        att@.len() <= COUNT_LIMIT,
        forall|i: int| 0 <= i < att@.len() ==> bounded_vec((#[trigger] att@[i]).position),
    ensures
        d.x == delta_x(agent, attracted, cands@, att@, *st),
        d.y == delta_y(agent, attracted, cands@, att@, *st),
        abs_i(d.x as int) <= 5 * FACTOR_LIMIT,
        abs_i(d.y as int) <= 5 * FACTOR_LIMIT,
{
    let apos = agent.position;
    proof {
        assert((st.perception_range as int) * (st.perception_range as int)
            <= 1_000_000_000_000_000_000int && 0 <= (st.protected_range as int) * (
        st.protected_range as int) && (st.protected_range as int) * (st.protected_range as int)
            <= (st.perception_range as int) * (st.perception_range as int)) by (nonlinear_arith)
            requires
                0 < st.protected_range as int,
                st.protected_range as int <= st.perception_range as int,
                st.perception_range as int <= 1_000_000_000int,
        ;
    }
    let rr: i64 = st.perception_range * st.perception_range;
    let pp: i64 = st.protected_range * st.protected_range;
    let mut cnt: usize = 0;
    let mut svx: i64 = 0;
    let mut svy: i64 = 0;
    let mut spx: i64 = 0;
    let mut spy: i64 = 0;
    let mut sepx: i64 = 0;
    let mut sepy: i64 = 0;
    let mut i: usize = 0;
    while i < cands.len()
        invariant
            st.valid(),
            bounded_state(agent),
            apos == agent.position,
            rr == (st.perception_range as int) * (st.perception_range as int),
            pp == (st.protected_range as int) * (st.protected_range as int),
            pp <= rr,
            cands@.len() <= COUNT_LIMIT,
            forall|j: int| 0 <= j < cands@.len() ==> bounded_state(#[trigger] cands@[j]),
            i <= cands@.len(),
            cnt == nb_count(apos, cands@.take(i as int), st.perception_range as int),
            0 <= cnt <= i,
            svx == nb_vel_x(apos, cands@.take(i as int), st.perception_range as int),
            svy == nb_vel_y(apos, cands@.take(i as int), st.perception_range as int),
            spx == nb_pos_x(apos, cands@.take(i as int), st.perception_range as int),
            spy == nb_pos_y(apos, cands@.take(i as int), st.perception_range as int),
            abs_i(svx as int) <= i * (COORD_LIMIT as int),
            abs_i(svy as int) <= i * (COORD_LIMIT as int),
            abs_i(spx as int) <= i * (COORD_LIMIT as int),
            abs_i(spy as int) <= i * (COORD_LIMIT as int),
            sepx == sep_x(apos, cands@.take(i as int), st.protected_range as int),
            sepy == sep_y(apos, cands@.take(i as int), st.protected_range as int),
            abs_i(sepx as int) <= i * 4_000_000_000int,
            abs_i(sepy as int) <= i * 4_000_000_000int,
        decreases cands@.len() - i,
    {
        let e = cands[i];
        let dx = apos.x - e.position.x;
        let dy = apos.y - e.position.y;
        proof {
            assert(dx * dx + dy * dy <= 2_000_000_000_000_000_000int && dx * dx >= 0 && dy * dy
                >= 0) by (nonlinear_arith)
                requires
                    -1_000_000_000int <= dx as int <= 1_000_000_000int,
                    -1_000_000_000int <= dy as int <= 1_000_000_000int,
            ;
            lemma_prefix_step(
                apos,
                cands@,
                i as int,
                st.perception_range as int,
                st.protected_range as int,
            );
        }
        let dsq: i64 = dx * dx + dy * dy;
        if dsq < rr {
            cnt = cnt + 1;
            svx = svx + e.velocity.x;
            svy = svy + e.velocity.y;
            spx = spx + e.position.x;
            spy = spy + e.position.y;
            if dsq < pp {
                if !(dx == 0 && dy == 0) {
                    let l = vec_norm(Vec2I { x: dx, y: dy });
                    let w: i64 = if l >= st.protected_range {
                        l - st.protected_range
                    } else {
                        st.protected_range - l
                    };
                    proof {
                        assert(l <= 2_000_000_000int) by (nonlinear_arith)
                            requires
                                (l as int) * (l as int) <= 2_000_000_000_000_000_000int,
                                l >= 0,
                        ;
                        assert(w == abs_i(
                            st.protected_range as int - vec_len_of_pair(dx as int, dy as int),
                        ));
                        assert(w <= 3_000_000_000int);
                    }
                    let tx = mul_div(dx, w, l);
                    let ty = mul_div(dy, w, l);
                    sepx = sepx + tx;
                    sepy = sepy + ty;
                } else {
                }
            }
        }
        i = i + 1;
    }
    proof {
        assert(cands@.take(cands@.len() as int) =~= cands@);
    }
    let sep_v = scaled_norm(Vec2I { x: sepx, y: sepy }, st.separation_factor);
    let mut tx: i64 = 0;
    let mut ty: i64 = 0;
    if apos.x < st.edge_margin {
        tx = tx + st.turn_factor;
    }
    if apos.x > st.area_width - st.edge_margin {
        tx = tx - st.turn_factor;
    }
    if apos.y < st.edge_margin {
        ty = ty + st.turn_factor;
    }
    if apos.y > st.area_height - st.edge_margin {
        ty = ty - st.turn_factor;
    }
    let turn_v = scaled_norm(Vec2I { x: tx, y: ty }, st.turn_factor);
    let align_v = if cnt == 0 {
        Vec2I { x: 0, y: 0 }
    } else {
        let mx = div_i64(svx, cnt as i64) - agent.velocity.x;
        let my = div_i64(svy, cnt as i64) - agent.velocity.y;
        scaled_norm(Vec2I { x: mx, y: my }, st.alignment_factor)
    };
    let coh_v = if cnt == 0 {
        Vec2I { x: 0, y: 0 }
    } else {
        let mx = div_i64(spx, cnt as i64) - agent.position.x;
        let my = div_i64(spy, cnt as i64) - agent.position.y;
        scaled_norm(Vec2I { x: mx, y: my }, st.cohesion_factor)
    };
    let att_v = if attracted && att.len() > 0 {
        let mut ax: i64 = 0;
        let mut ay: i64 = 0;
        let mut j: usize = 0;
        while j < att.len()
            invariant
                att@.len() <= COUNT_LIMIT,
                forall|k: int| 0 <= k < att@.len() ==> bounded_vec((#[trigger] att@[k]).position),
                j <= att@.len(),
                ax == att_sum_x(att@.take(j as int)),
                ay == att_sum_y(att@.take(j as int)),
                abs_i(ax as int) <= j * (COORD_LIMIT as int),
                abs_i(ay as int) <= j * (COORD_LIMIT as int),
            decreases att@.len() - j,
        {
            proof {
                lemma_att_prefix_step(att@, j as int);
            }
            ax = ax + att[j].position.x;
            ay = ay + att[j].position.y;
            j = j + 1;
        }
        proof {
            assert(att@.take(att@.len() as int) =~= att@);
        }
        let cx = div_i64(ax, att.len() as i64) - agent.position.x;
        let cy = div_i64(ay, att.len() as i64) - agent.position.y;
        scaled_norm(Vec2I { x: cx, y: cy }, st.attraction_point_factor)
    } else {
        Vec2I { x: 0, y: 0 }
    };
    Vec2I {
        x: sep_v.x + turn_v.x + align_v.x + coh_v.x + att_v.x,
        y: sep_v.y + turn_v.y + align_v.y + coh_v.y + att_v.y,
    }
}

/// Magnitude of an integer pair, rounded down (helper for stating the
/// separation weight).
pub open spec fn vec_len_of_pair(dx: int, dy: int) -> int {
    sqrt_floor((dx * dx + dy * dy) as nat) as int
}

/// How each accumulated quantity shrinks when one candidate is taken
/// out of the list.
proof fn lemma_remove_terms(apos: Vec2I, s: Seq<AgentState>, j: int, r: int, pr: int)
    requires
        0 <= j < s.len(),
    ensures
        nb_count(apos, s.remove(j), r) == nb_count(apos, s, r) - (if dist_sq(apos, s[j].position)
            < r * r {
            1int
        } else {
            0int
        }),
        nb_vel_x(apos, s.remove(j), r) == nb_vel_x(apos, s, r) - (if dist_sq(apos, s[j].position)
            < r * r {
            s[j].velocity.x as int
        } else {
            0int
        }),
        nb_vel_y(apos, s.remove(j), r) == nb_vel_y(apos, s, r) - (if dist_sq(apos, s[j].position)
            < r * r {
            s[j].velocity.y as int
        } else {
            0int
        }),
        nb_pos_x(apos, s.remove(j), r) == nb_pos_x(apos, s, r) - (if dist_sq(apos, s[j].position)
            < r * r {
            s[j].position.x as int
        } else {
            0int
        }),
        nb_pos_y(apos, s.remove(j), r) == nb_pos_y(apos, s, r) - (if dist_sq(apos, s[j].position)
            < r * r {
            s[j].position.y as int
        } else {
            0int
        }),
        sep_x(apos, s.remove(j), pr) == sep_x(apos, s, pr) - sep_term_x(apos, s[j], pr),
        sep_y(apos, s.remove(j), pr) == sep_y(apos, s, pr) - sep_term_y(apos, s[j], pr),
    decreases s.len(),
{
    if j == s.len() - 1 {
        assert(s.remove(j) =~= s.drop_last());
    } else {
        lemma_remove_terms(apos, s.drop_last(), j, r, pr);
        assert(s.remove(j).drop_last() =~= s.drop_last().remove(j));
        assert(s.remove(j).last() == s.last());
        assert(s.drop_last()[j] == s[j]);
    }
}

/// Two enumerations of the same candidate multiset accumulate the same
/// sums: every per-neighbour quantity the force model folds up is
/// order-independent.
proof fn lemma_sums_permutation(apos: Vec2I, s1: Seq<AgentState>, s2: Seq<AgentState>, r: int, pr: int)
    requires
        s1.to_multiset() == s2.to_multiset(),
    ensures
        nb_count(apos, s1, r) == nb_count(apos, s2, r),
        nb_vel_x(apos, s1, r) == nb_vel_x(apos, s2, r),
        nb_vel_y(apos, s1, r) == nb_vel_y(apos, s2, r),
        nb_pos_x(apos, s1, r) == nb_pos_x(apos, s2, r),
        nb_pos_y(apos, s1, r) == nb_pos_y(apos, s2, r),
        sep_x(apos, s1, pr) == sep_x(apos, s2, pr),
        sep_y(apos, s1, pr) == sep_y(apos, s2, pr),
    decreases s1.len(),
{
    s1.to_multiset_ensures();
    s2.to_multiset_ensures();
    if s1.len() == 0 {
        assert(s2.len() == 0);
    } else {
        let e = s1.last();
        assert(s1.contains(e));
        assert(s1.to_multiset().count(e) > 0);
        assert(s2.to_multiset().count(e) > 0);
        assert(s2.contains(e));
        let j = choose|j: int| 0 <= j < s2.len() && s2[j] == e;
        assert(s1.drop_last() =~= s1.remove(s1.len() - 1));
        assert(s1.drop_last().to_multiset() == s1.to_multiset().remove(e));
        assert(s2.remove(j).to_multiset() == s2.to_multiset().remove(e));
        lemma_sums_permutation(apos, s1.drop_last(), s2.remove(j), r, pr);
        lemma_remove_terms(apos, s2, j, r, pr);
    }
}

/// Order-independence of the force model: the tick delta of an agent
/// depends only on which candidates the window query returned — as a
/// multiset — never on the order the index enumerated them in.
pub proof fn lemma_delta_order_independent(
    agent: AgentState,
    attracted: bool,
    cs1: Seq<AgentState>,
    cs2: Seq<AgentState>,
    att: Seq<AttractionPoint>,
    st: SimulationSettings,
)
    requires
        cs1.to_multiset() == cs2.to_multiset(),
    ensures
        delta_x(agent, attracted, cs1, att, st) == delta_x(agent, attracted, cs2, att, st),
        delta_y(agent, attracted, cs1, att, st) == delta_y(agent, attracted, cs2, att, st),
{
    lemma_sums_permutation(
        agent.position,
        cs1,
        cs2,
        st.perception_range as int,
        st.protected_range as int,
    );
}

/// Every entry of the multiset is bounded.
pub open spec fn entries_bounded(es: Multiset<AgentState>) -> bool {
    forall|e: AgentState| (#[trigger] es.count(e)) > 0 ==> bounded_state(e)
}

/// `d` is the tick delta computed from the true neighbour-candidate
/// multiset: the stored pairs inside the agent's query window. Which
/// order the index hands the candidates out in is unspecified, but by
/// `lemma_delta_order_independent` every enumeration of that multiset
/// yields this same delta, so the first clause pins `d` down and the
/// second witnesses that an enumeration exists.
pub open spec fn tick_delta_ok(
    d: Vec2I,
    agent: AgentState,
    attracted: bool,
    entries: Multiset<AgentState>,
    att: Seq<AttractionPoint>,
    st: SimulationSettings,
) -> bool {
    &&& (forall|cs: Seq<AgentState>|
        (#[trigger] cs.to_multiset()) == region_filter(
            entries,
            neighbors_window(agent.position, st.perception_range as int),
        ) ==> d.x == delta_x(agent, attracted, cs, att, st) && d.y == delta_y(
            agent,
            attracted,
            cs,
            att,
            st,
        ))
    &&& (exists|cs: Seq<AgentState>|
        (#[trigger] cs.to_multiset()) == region_filter(
            entries,
            neighbors_window(agent.position, st.perception_range as int),
        ))
}

/// A filtered multiset is no larger than the original.
proof fn lemma_filter_len_le(ms: Multiset<AgentState>, region: Rectangle)
    ensures
        region_filter(ms, region).len() <= ms.len(),
{
    let f = region_filter(ms, region);
    assert(ms =~= f.add(ms.sub(f)));
    assert(ms.len() == f.add(ms.sub(f)).len());
}

/// The read phase of one tick: computes every agent's velocity delta
/// from the immutable index snapshot, the attraction points and the
/// configuration. Agents with an even index are eligible for
/// attraction. Nothing is mutated, so evaluating agents in any order
/// yields the same result.
pub fn compute_deltas(
    agents: &Vec<AgentState>,
    tree: &QuadTree,
    att: &Vec<AttractionPoint>,
    st: &SimulationSettings,
) -> (out: Vec<Vec2I>)
    requires
        tree.wf(),
        st.valid(),
        tree.entries().len() <= COUNT_LIMIT,
        entries_bounded(tree.entries()),
        forall|i: int| 0 <= i < agents@.len() ==> bounded_state(#[trigger] agents@[i]),
        att@.len() <= COUNT_LIMIT,
        forall|i: int| 0 <= i < att@.len() ==> bounded_vec((#[trigger] att@[i]).position),
    ensures
        out@.len() == agents@.len(),
        forall|i: int|
            0 <= i < agents@.len() ==> tick_delta_ok(
                #[trigger] out@[i],
                agents@[i],
                i % 2 == 0,
                tree.entries(),
                att@,
                *st,
            ),
        forall|i: int|
            0 <= i < out@.len() ==> abs_i((#[trigger] out@[i]).x as int) <= 5 * FACTOR_LIMIT
                && abs_i(out@[i].y as int) <= 5 * FACTOR_LIMIT,
{
    let mut out: Vec<Vec2I> = Vec::new();
    let mut i: usize = 0;
    while i < agents.len()
        invariant
            tree.wf(),
            st.valid(),
            tree.entries().len() <= COUNT_LIMIT,
            entries_bounded(tree.entries()),
            forall|j: int| 0 <= j < agents@.len() ==> bounded_state(#[trigger] agents@[j]),
            att@.len() <= COUNT_LIMIT,
            forall|j: int| 0 <= j < att@.len() ==> bounded_vec((#[trigger] att@[j]).position),
            i <= agents@.len(),
            out@.len() == i,
            forall|j: int|
                0 <= j < i ==> tick_delta_ok(
                    #[trigger] out@[j],
                    agents@[j],
                    j % 2 == 0,
                    tree.entries(),
                    att@,
                    *st,
                ),
            forall|j: int|
                0 <= j < i ==> abs_i((#[trigger] out@[j]).x as int) <= 5 * FACTOR_LIMIT && abs_i(
                    out@[j].y as int,
                ) <= 5 * FACTOR_LIMIT,
        decreases agents@.len() - i,
    {
        let a = agents[i];
        let win = Rectangle {
            position: a.position,
            size: Vec2I { x: st.perception_range, y: st.perception_range },
        };
        proof {
            assert(win.wf());
            assert(win == neighbors_window(a.position, st.perception_range as int));
        }
        let cands = tree.query(&win);
        proof {
            lemma_filter_len_le(tree.entries(), win);
            assert(cands@.len() <= COUNT_LIMIT);
            assert forall|k: int| 0 <= k < cands@.len() implies bounded_state(
                #[trigger] cands@[k],
            ) by {
                assert(cands@.contains(cands@[k]));
                assert(cands@.to_multiset().count(cands@[k]) > 0);
                assert(tree.entries().count(cands@[k]) > 0);
            }
        }
        let attracted = i % 2 == 0;
        let d = agent_delta(a, attracted, &cands, att, st);
        proof {
            assert(cands@.to_multiset() == region_filter(
                tree.entries(),
                neighbors_window(a.position, st.perception_range as int),
            ));
            assert forall|cs: Seq<AgentState>|
                (#[trigger] cs.to_multiset()) == region_filter(
                    tree.entries(),
                    neighbors_window(a.position, st.perception_range as int),
                ) implies d.x == delta_x(a, attracted, cs, att@, *st) && d.y == delta_y(
                a,
                attracted,
                cs,
                att@,
                *st,
            ) by {
                lemma_delta_order_independent(a, attracted, cs, cands@, att@, *st);
            }
            assert(tick_delta_ok(d, a, attracted, tree.entries(), att@, *st));
        }
        out.push(d);
        i = i + 1;
    }
    out
}

} // verus!
