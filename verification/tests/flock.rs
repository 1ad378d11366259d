use boids::flock::{agent_delta, compute_deltas, AttractionPoint, SimulationSettings};
use boids::geometry::{AgentState, Rectangle, Vec2I};
use boids::quadtree::QuadTree;

fn v(x: i64, y: i64) -> Vec2I {
    Vec2I { x, y }
}

fn agent(px: i64, py: i64, vx: i64, vy: i64) -> AgentState {
    AgentState { position: v(px, py), velocity: v(vx, vy) }
}

fn attraction_only() -> SimulationSettings {
    SimulationSettings {
        agent_count: 1,
        separation_factor: 0,
        alignment_factor: 0,
        cohesion_factor: 0,
        perception_range: 60_000,
        protected_range: 12_000,
        min_speed: 5_000,
        max_speed: 5_100,
        turn_factor: 0,
        attraction_point_factor: 100,
        area_width: 920_000,
        area_height: 920_000,
        edge_margin: 150_000,
    }
}

#[test]
fn default_settings_are_valid() {
    let st = SimulationSettings::default();
    assert!(st.validate());
    assert_eq!(st.agent_count, 500);
    assert_eq!(st.protected_range, 12_000);
}

#[test]
fn inverted_speed_band_is_rejected() {
    let mut st = SimulationSettings::default();
    st.min_speed = 6_000;
    st.max_speed = 5_000;
    assert!(!st.validate());
}

#[test]
fn nonpositive_range_is_rejected() {
    let mut st = SimulationSettings::default();
    st.protected_range = 0;
    assert!(!st.validate());
}

#[test]
fn zero_neighbors_zero_delta() {
    let st = SimulationSettings::default();
    let a = agent(460_000, 460_000, 1_234, -777);
    let cands: Vec<AgentState> = Vec::new();
    let att: Vec<AttractionPoint> = Vec::new();
    let d = agent_delta(a, false, &cands, &att, &st);
    assert_eq!((d.x, d.y), (0, 0));
}

#[test]
fn separation_scenario() {
    // Two agents two units (2000 steps) apart, protected range twelve
    // units, zero velocity, default weights, away from the area edges.
    let st = SimulationSettings::default();
    let a = agent(460_000, 460_000, 0, 0);
    let b = agent(462_000, 460_000, 0, 0);
    let cands = vec![a, b];
    let att: Vec<AttractionPoint> = Vec::new();
    let da = agent_delta(a, false, &cands, &att, &st);
    let db = agent_delta(b, false, &cands, &att, &st);
    // separation (-300, 0) plus cohesion (55, 0) for the left agent
    assert_eq!((da.x, da.y), (-245, 0));
    assert_eq!((db.x, db.y), (245, 0));
    assert!(da.x < 0 && db.x > 0);
}

#[test]
fn attraction_scenario() {
    // One attraction point at (100, 100) units, eligible agent at the
    // origin, attraction factor a tenth of a unit.
    let st = attraction_only();
    let a = agent(0, 0, 0, 0);
    let cands: Vec<AgentState> = Vec::new();
    let att = vec![AttractionPoint { position: v(100_000, 100_000) }];
    let d = agent_delta(a, true, &cands, &att, &st);
    assert_eq!((d.x, d.y), (70, 70));
    assert!(d.x > 0 && d.y > 0);

    let none: Vec<AttractionPoint> = Vec::new();
    let d0 = agent_delta(a, true, &cands, &none, &st);
    assert_eq!((d0.x, d0.y), (0, 0));

    let d1 = agent_delta(a, false, &cands, &att, &st);
    assert_eq!((d1.x, d1.y), (0, 0));
}

#[test]
fn compute_deltas_reads_the_index() {
    let st = SimulationSettings::default();
    let boundary = Rectangle { position: v(460_000, 460_000), size: v(600_000, 600_000) };
    let mut tree = QuadTree::new(boundary, 4);
    let agents = vec![agent(460_000, 460_000, 0, 0), agent(462_000, 460_000, 0, 0)];
    for a in agents.iter() {
        assert!(tree.insert(*a));
    }
    let att: Vec<AttractionPoint> = Vec::new();
    let deltas = compute_deltas(&agents, &tree, &att, &st);
    assert_eq!(deltas.len(), 2);
    assert_eq!((deltas[0].x, deltas[0].y), (-245, 0));
    assert_eq!((deltas[1].x, deltas[1].y), (245, 0));
}

#[test]
fn edge_avoidance_turns_inward() {
    // Only the turn force: an agent in the left margin is pushed
    // towards positive x, one past the right margin towards negative x.
    let mut st = SimulationSettings::default();
    st.separation_factor = 0;
    st.alignment_factor = 0;
    st.cohesion_factor = 0;
    st.attraction_point_factor = 0;
    assert!(st.validate());
    let cands: Vec<AgentState> = Vec::new();
    let att: Vec<AttractionPoint> = Vec::new();
    let left = agent(100_000, 460_000, 0, 0);
    let dl = agent_delta(left, false, &cands, &att, &st);
    assert_eq!((dl.x, dl.y), (400, 0));
    let right = agent(900_000, 460_000, 0, 0);
    let dr = agent_delta(right, false, &cands, &att, &st);
    assert_eq!((dr.x, dr.y), (-400, 0));
    let corner = agent(100_000, 100_000, 0, 0);
    let dc = agent_delta(corner, false, &cands, &att, &st);
    // both axes push inward, normalised to the turn factor
    assert_eq!((dc.x, dc.y), (283, 283));
}
