use boids::geometry::{AgentState, Rectangle, Vec2I};
use boids::quadtree::QuadTree;

fn v(x: i64, y: i64) -> Vec2I {
    Vec2I { x, y }
}

fn agent(px: i64, py: i64, vx: i64, vy: i64) -> AgentState {
    AgentState { position: v(px, py), velocity: v(vx, vy) }
}

fn root_rect() -> Rectangle {
    Rectangle { position: v(0, 0), size: v(1000, 1000) }
}

fn as_tuples(found: &[AgentState]) -> Vec<(i64, i64, i64, i64)> {
    let mut t: Vec<(i64, i64, i64, i64)> = found
        .iter()
        .map(|e| (e.position.x, e.position.y, e.velocity.x, e.velocity.y))
        .collect();
    t.sort_unstable();
    t
}

#[test]
fn containment_round_trip() {
    let mut tree = QuadTree::new(root_rect(), 2);
    let mut expected = Vec::new();
    for i in 0..40i64 {
        let e = agent(-900 + i * 45, (i * 37) % 900 - 450, i, -i);
        assert!(tree.insert(e));
        expected.push(e);
    }
    assert_eq!(tree.len(), 40);
    let found = tree.query(&root_rect());
    assert_eq!(found.len(), 40);
    assert_eq!(as_tuples(&found), as_tuples(&expected));
}

#[test]
fn removal_correctness() {
    let mut tree = QuadTree::new(root_rect(), 1);
    for i in 0..10i64 {
        assert!(tree.insert(agent(i * 90 - 400, i * 70 - 300, 0, 0)));
    }
    let p = v(90 - 400, 70 - 300);
    assert!(tree.remove_point(p));
    assert_eq!(tree.len(), 9);
    let found = tree.query(&root_rect());
    assert_eq!(found.len(), 9);
    assert!(found.iter().all(|e| e.position != p));
    assert!(!tree.remove_point(p));
}

#[test]
fn move_correctness() {
    let mut tree = QuadTree::new(root_rect(), 4);
    let old = agent(100, 100, 5, 5);
    let new = agent(150, 90, 6, 6);
    assert!(tree.insert(old));
    assert!(tree.insert(agent(-500, -500, 0, 0)));
    assert!(tree.move_point(old, new));
    let found = tree.query(&root_rect());
    assert_eq!(found.len(), 2);
    assert_eq!(found.iter().filter(|e| e.position == new.position).count(), 1);
    assert_eq!(found.iter().filter(|e| e.position == old.position).count(), 0);
}

#[test]
fn move_with_stale_old_still_inserts() {
    let mut tree = QuadTree::new(root_rect(), 4);
    assert!(tree.insert(agent(10, 10, 0, 0)));
    let stale = agent(700, 700, 0, 0);
    let new = agent(20, 20, 1, 1);
    assert!(!tree.move_point(stale, new));
    assert_eq!(tree.len(), 2);
}

#[test]
fn de_subdivision() {
    let mut tree = QuadTree::new(root_rect(), 1);
    let pts = [
        agent(500, 500, 0, 0),
        agent(-500, 500, 0, 0),
        agent(500, -500, 0, 0),
        agent(-500, -500, 0, 0),
        agent(250, 250, 0, 0),
    ];
    for p in pts.iter() {
        assert!(tree.insert(*p));
    }
    assert!(tree.is_subdivided());
    for p in pts.iter() {
        assert!(tree.remove_point(p.position));
    }
    assert_eq!(tree.len(), 0);
    assert!(!tree.is_subdivided());
}

#[test]
fn query_pruning() {
    let mut tree = QuadTree::new(root_rect(), 3);
    for i in 0..50i64 {
        assert!(tree.insert(agent(i * 17 - 425, i * 11 - 275, 0, 0)));
    }
    let disjoint = Rectangle { position: v(5000, 5000), size: v(100, 100) };
    let found = tree.query(&disjoint);
    assert!(found.is_empty());
}

#[test]
fn windowed_query_filters() {
    let mut tree = QuadTree::new(root_rect(), 2);
    assert!(tree.insert(agent(0, 0, 1, 1)));
    assert!(tree.insert(agent(50, 0, 2, 2)));
    assert!(tree.insert(agent(400, 400, 3, 3)));
    let window = Rectangle { position: v(0, 0), size: v(100, 100) };
    let found = tree.query(&window);
    assert_eq!(found.len(), 2);
}

#[test]
fn out_of_bounds_insert_rejected() {
    let mut tree = QuadTree::new(root_rect(), 2);
    assert!(!tree.insert(agent(2000, 0, 0, 0)));
    assert_eq!(tree.len(), 0);
    let found = tree.query(&root_rect());
    assert!(found.is_empty());
}

#[test]
fn duplicate_positions_kept() {
    let mut tree = QuadTree::new(root_rect(), 1);
    assert!(tree.insert(agent(5, 5, 1, 0)));
    assert!(tree.insert(agent(5, 5, 2, 0)));
    assert!(tree.insert(agent(5, 5, 3, 0)));
    assert_eq!(tree.len(), 3);
    let found = tree.query(&root_rect());
    assert_eq!(found.len(), 3);
    assert!(tree.remove_point(v(5, 5)));
    assert_eq!(tree.len(), 2);
}

#[test]
fn boundary_edges_are_closed() {
    let r = Rectangle { position: v(0, 0), size: v(10, 10) };
    assert!(r.contains(&v(10, 10)));
    assert!(r.contains(&v(-10, -10)));
    assert!(!r.contains(&v(11, 0)));
    let touching = Rectangle { position: v(20, 0), size: v(10, 10) };
    assert!(r.intersects(&touching));
    let apart = Rectangle { position: v(21, 0), size: v(10, 10) };
    assert!(!r.intersects(&apart));
}
