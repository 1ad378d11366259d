use boids::flock::SimulationSettings;
use boids::geometry::{AgentState, Rectangle, Vec2I};
use boids::integrate::{advance_tick, clamp_speed, integrate};
use boids::quadtree::QuadTree;

fn v(x: i64, y: i64) -> Vec2I {
    Vec2I { x, y }
}

fn agent(px: i64, py: i64, vx: i64, vy: i64) -> AgentState {
    AgentState { position: v(px, py), velocity: v(vx, vy) }
}

#[test]
fn clamp_keeps_in_band_vector() {
    let r = clamp_speed(v(3000, 4000), 5000, 5100);
    assert_eq!((r.x, r.y), (3000, 4000));
}

#[test]
fn clamp_scales_slow_vector_up() {
    let r = clamp_speed(v(30, 40), 5000, 5100);
    assert_eq!((r.x, r.y), (3000, 4000));
}

#[test]
fn clamp_scales_fast_vector_down() {
    let r = clamp_speed(v(6000, 8000), 5000, 5100);
    assert_eq!((r.x, r.y), (3060, 4080));
    let sq = r.x * r.x + r.y * r.y;
    assert!(sq <= 5100 * 5100);
    assert!(sq >= 5000 * 5000);
}

#[test]
fn clamp_leaves_zero_vector() {
    let r = clamp_speed(v(0, 0), 5000, 5100);
    assert_eq!((r.x, r.y), (0, 0));
}

#[test]
fn velocity_clamp_after_tick() {
    // After the write phase every started agent's speed lies in the
    // configured band (these inputs scale exactly).
    let st = SimulationSettings::default();
    let boundary = Rectangle { position: v(0, 0), size: v(500_000, 500_000) };
    let mut tree = QuadTree::new(boundary, 4);
    let agents = vec![
        agent(0, 0, 30, 40),
        agent(10_000, 0, 6_000, 8_000),
        agent(0, 10_000, 3_000, 4_000),
    ];
    for a in agents.iter() {
        assert!(tree.insert(*a));
    }
    let deltas = vec![v(0, 0), v(0, 0), v(0, 0)];
    let updated = integrate(&agents, &deltas, &mut tree, &st);
    assert_eq!(updated.len(), 3);
    assert_eq!((updated[0].velocity.x, updated[0].velocity.y), (3000, 4000));
    assert_eq!((updated[1].velocity.x, updated[1].velocity.y), (3060, 4080));
    assert_eq!((updated[2].velocity.x, updated[2].velocity.y), (3000, 4000));
    for u in updated.iter() {
        let sq = u.velocity.x * u.velocity.x + u.velocity.y * u.velocity.y;
        assert!(sq >= st.min_speed * st.min_speed);
        assert!(sq <= st.max_speed * st.max_speed);
    }
    // explicit Euler step
    assert_eq!((updated[0].position.x, updated[0].position.y), (3000, 4000));
    assert_eq!((updated[1].position.x, updated[1].position.y), (13_060, 4080));
}

#[test]
fn integrate_resynchronises_the_index() {
    let st = SimulationSettings::default();
    let boundary = Rectangle { position: v(0, 0), size: v(500_000, 500_000) };
    let mut tree = QuadTree::new(boundary, 2);
    let agents = vec![agent(0, 0, 30, 40), agent(10_000, 0, 6_000, 8_000)];
    for a in agents.iter() {
        assert!(tree.insert(*a));
    }
    let deltas = vec![v(0, 0), v(0, 0)];
    let updated = integrate(&agents, &deltas, &mut tree, &st);
    assert_eq!(tree.len(), 2);
    let everything = tree.query(&boundary);
    assert_eq!(everything.len(), 2);
    for u in updated.iter() {
        assert_eq!(
            everything.iter().filter(|e| e.position == u.position && e.velocity == u.velocity).count(),
            1,
            "index should hold the stepped pair, velocity included",
        );
    }
    assert!(everything.iter().all(|e| e.position != v(0, 0)));
}

#[test]
fn clamp_rechecks_after_boost() {
    // A tiny vector boosts past the band ceiling, because the floor of
    // its magnitude underestimates it; the clamp checks again and
    // lowers the boosted vector to the ceiling.
    let r = clamp_speed(v(1, 1), 5000, 5100);
    assert_eq!((r.x, r.y), (3606, 3606));
    let sq = r.x * r.x + r.y * r.y;
    assert!(sq < 5101 * 5101);
    assert!(sq > 5100 * 5100 - 4 * 5100 - 2);
}

#[test]
fn repeated_ticks_stay_consistent() {
    // A small flock run for many ticks: the index stays in sync with
    // the agents and every moving agent's speed stays in the band.
    let st = SimulationSettings::default();
    let boundary = Rectangle { position: v(460_000, 460_000), size: v(5_000_000, 5_000_000) };
    let mut tree = QuadTree::new(boundary, 4);
    let mut agents = vec![
        agent(400_000, 400_000, 1_000, 0),
        agent(500_000, 400_000, 0, 1_000),
        agent(400_000, 500_000, -1_000, 0),
        agent(500_000, 500_000, 0, -1_000),
        agent(460_000, 460_000, 2_000, 2_000),
    ];
    for a in agents.iter() {
        assert!(tree.insert(*a));
    }
    let att = vec![boids::flock::AttractionPoint { position: v(460_000, 460_000) }];
    for _ in 0..50 {
        let deltas = boids::flock::compute_deltas(&agents, &tree, &att, &st);
        assert_eq!(deltas.len(), agents.len());
        agents = integrate(&agents, &deltas, &mut tree, &st);
        assert_eq!(tree.len(), agents.len());
        for a in agents.iter() {
            let sq = a.velocity.x * a.velocity.x + a.velocity.y * a.velocity.y;
            assert!(sq < (st.max_speed + 1) * (st.max_speed + 1));
            assert!(sq > st.min_speed * st.min_speed - 4 * st.min_speed - 2);
        }
    }
    // every agent is still indexed at its current position
    let everything = tree.query(&boundary);
    for a in agents.iter() {
        assert!(everything.iter().any(|e| e.position == a.position));
    }
}

#[test]
fn advance_tick_runs_both_phases() {
    let st = SimulationSettings::default();
    let boundary = Rectangle { position: v(460_000, 460_000), size: v(600_000, 600_000) };
    let mut tree = QuadTree::new(boundary, 4);
    let agents = vec![agent(460_000, 460_000, 0, 0), agent(462_000, 460_000, 0, 0)];
    for a in agents.iter() {
        assert!(tree.insert(*a));
    }
    let att: Vec<boids::flock::AttractionPoint> = Vec::new();
    let updated = advance_tick(&agents, &att, &mut tree, &st);
    assert_eq!(updated.len(), 2);
    // deltas (-245, 0) and (245, 0) scaled up to the minimum speed
    assert_eq!((updated[0].velocity.x, updated[0].velocity.y), (-5000, 0));
    assert_eq!((updated[1].velocity.x, updated[1].velocity.y), (5000, 0));
    assert_eq!((updated[0].position.x, updated[0].position.y), (455_000, 460_000));
    assert_eq!((updated[1].position.x, updated[1].position.y), (467_000, 460_000));
    assert_eq!(tree.len(), 2);
}
