//! A region quadtree over agent (position, velocity) pairs.
//!
//! Each node stores up to `capacity` pairs directly; on overflow it
//! subdivides into four quadrants and routes further insertions to the
//! first quadrant (NW, NE, SW, SE order) containing the new position.
//! Pairs resident when subdivision happens stay in the node: they are
//! never redistributed into the quadrants. When a removal empties every
//! quadrant's subtree the node collapses back to an undivided node.
//!
//! The tree is modelled as two multisets: its entries (the pairs) and
//! its positions. Out-of-bounds insertion is reported as a failure
//! instead of silently dropping the point.

use vstd::multiset::Multiset;
use vstd::prelude::*;

use crate::geometry::{AgentState, Rectangle, Vec2I};
use crate::geometry::{lemma_common_point_overlaps, lemma_quadrants_cover, lemma_quadrants_wf};

verus! {

broadcast use vstd::multiset::group_multiset_axioms, vstd::seq_lib::group_to_multiset_ensures;

/// The four quadrants of a subdivided node, in routing order.
struct Quads {
    nw: QuadTree,
    ne: QuadTree,
    sw: QuadTree,
    se: QuadTree,
}

/// A quadtree node; the root doubles as the whole index.
pub struct QuadTree {
    boundary: Rectangle,
    capacity: usize,
    count: usize,
    points: Vec<AgentState>,
    children: Option<Box<Quads>>,
}

/// The multiset of positions of a sequence of agent states.
pub open spec fn seq_positions(s: Seq<AgentState>) -> Multiset<Vec2I>
    decreases s.len(),
{
    if s.len() == 0 {
        Multiset::empty()
    } else {
        seq_positions(s.drop_last()).insert(s.last().position)
    }
}

/// A sequence contributes as many positions as it has elements.
pub proof fn lemma_seq_positions_len(s: Seq<AgentState>)
    ensures
        seq_positions(s).len() == s.len(),
    decreases s.len(),
{
    if s.len() > 0 {
        lemma_seq_positions_len(s.drop_last());
    }
}

/// Pushing an agent state adds its position.
pub proof fn lemma_seq_positions_push(s: Seq<AgentState>, e: AgentState)
    ensures
        seq_positions(s.push(e)) == seq_positions(s).insert(e.position),
{
    assert(s.push(e).drop_last() =~= s);
}

/// Removing the element at `i` removes its position.
pub proof fn lemma_seq_positions_remove(s: Seq<AgentState>, i: int)
    requires
        0 <= i < s.len(),
    ensures
        seq_positions(s.remove(i)) == seq_positions(s).remove(s[i].position),
    decreases s.len(),
{
    if i == s.len() - 1 {
        assert(s.remove(i) =~= s.drop_last());
        assert(seq_positions(s).remove(s[i].position) =~= seq_positions(s.drop_last()));
    } else {
        lemma_seq_positions_remove(s.drop_last(), i);
        assert(s.remove(i).drop_last() =~= s.drop_last().remove(i));
        assert(s.remove(i).last() == s.last());
        assert(seq_positions(s.remove(i)) == seq_positions(s.drop_last().remove(i)).insert(
            s.last().position,
        ));
        assert(seq_positions(s.drop_last()).contains(s[i].position)) by {
            lemma_seq_positions_contains(s.drop_last(), s[i].position);
            assert(s.drop_last()[i].position == s[i].position);
        }
        assert(seq_positions(s.drop_last()).remove(s[i].position).insert(s.last().position)
            =~= seq_positions(s.drop_last()).insert(s.last().position).remove(s[i].position));
    }
}

/// A position occurs in `seq_positions(s)` exactly when some element of
/// `s` has that position.
pub proof fn lemma_seq_positions_contains(s: Seq<AgentState>, p: Vec2I)
    ensures
        seq_positions(s).contains(p) <==> exists|i: int|
            0 <= i < s.len() && (#[trigger] s[i]).position == p,
    decreases s.len(),
{
    if s.len() > 0 {
        lemma_seq_positions_contains(s.drop_last(), p);
        if s.last().position == p {
            assert(s[s.len() - 1].position == p);
        } else if seq_positions(s).contains(p) {
            let i = choose|i: int|
                0 <= i < s.drop_last().len() && (#[trigger] s.drop_last()[i]).position == p;
            assert(s[i].position == p);
        } else if exists|i: int| 0 <= i < s.len() && (#[trigger] s[i]).position == p {
            let i = choose|i: int| 0 <= i < s.len() && (#[trigger] s[i]).position == p;
            assert(i < s.len() - 1);
            assert(s.drop_last()[i].position == p);
        }
    }
}

/// `after` is `before` with exactly one entry at position `p` taken out
/// (which velocity that entry carried is not determined: removal
/// matches by position alone).
pub open spec fn removed_one(
    before: Multiset<AgentState>,
    after: Multiset<AgentState>,
    p: Vec2I,
) -> bool {
    exists|e: AgentState|
        (#[trigger] before.count(e)) > 0 && e.position == p && after == before.remove(e)
}

/// The sub-multiset of entries whose position lies in `region`.
pub open spec fn region_filter(ms: Multiset<AgentState>, region: Rectangle) -> Multiset<AgentState> {
    ms.filter(|e: AgentState| region.contains_pt(e.position))
}

/// How `region_filter` treats one inserted entry.
pub proof fn lemma_region_filter_insert(ms: Multiset<AgentState>, e: AgentState, region: Rectangle)
    ensures
        region.contains_pt(e.position) ==> region_filter(ms.insert(e), region) == region_filter(
            ms,
            region,
        ).insert(e),
        !region.contains_pt(e.position) ==> region_filter(ms.insert(e), region) == region_filter(
            ms,
            region,
        ),
{
    if region.contains_pt(e.position) {
        assert(region_filter(ms.insert(e), region) =~= region_filter(ms, region).insert(e));
    } else {
        assert(region_filter(ms.insert(e), region) =~= region_filter(ms, region));
    }
}

/// `region_filter` distributes over multiset union.
pub proof fn lemma_region_filter_add(
    a: Multiset<AgentState>,
    b: Multiset<AgentState>,
    region: Rectangle,
)
    ensures
        region_filter(a.add(b), region) == region_filter(a, region).add(region_filter(b, region)),
{
    assert(region_filter(a.add(b), region) =~= region_filter(a, region).add(
        region_filter(b, region),
    ));
}

impl Quads {
    /// All pairs held in the four quadrants together.
    spec fn entries_sum(self) -> Multiset<AgentState>
        decreases self,
    {
        self.nw.entries().add(self.ne.entries()).add(self.sw.entries()).add(self.se.entries())
    }

    /// All positions held in the four quadrants together.
    spec fn positions_sum(self) -> Multiset<Vec2I>
        decreases self,
    {
        self.nw.positions().add(self.ne.positions()).add(self.sw.positions()).add(
            self.se.positions(),
        )
    }

    /// Quadrants fit their parent: boundaries are the parent boundary's
    /// four quadrant rectangles, capacities match, each quadrant is
    /// well formed, and routing is first-match: a position stored in a
    /// quadrant is contained in no earlier quadrant's rectangle.
    spec fn wf_for(self, boundary: Rectangle, capacity: int) -> bool
        decreases self,
    {
        &&& self.nw.boundary == boundary.nw_rect()
        &&& self.ne.boundary == boundary.ne_rect()
        &&& self.sw.boundary == boundary.sw_rect()
        &&& self.se.boundary == boundary.se_rect()
        &&& self.nw.capacity == capacity
        &&& self.ne.capacity == capacity
        &&& self.sw.capacity == capacity
        &&& self.se.capacity == capacity
        &&& self.nw.wf()
        &&& self.ne.wf()
        &&& self.sw.wf()
        &&& self.se.wf()
        &&& (forall|p: Vec2I|
            self.ne.positions().contains(p) ==> !boundary.nw_rect().contains_pt(p))
        &&& (forall|p: Vec2I|
            self.sw.positions().contains(p) ==> !boundary.nw_rect().contains_pt(p)
                && !boundary.ne_rect().contains_pt(p))
        &&& (forall|p: Vec2I|
            self.se.positions().contains(p) ==> !boundary.nw_rect().contains_pt(p)
                && !boundary.ne_rect().contains_pt(p) && !boundary.sw_rect().contains_pt(p))
    }
}

impl QuadTree {
    /// The multiset of all (position, velocity) pairs in the subtree.
    pub closed spec fn entries(self) -> Multiset<AgentState>
        decreases self,
    {
        match self.children {
            None => self.points@.to_multiset(),
            Some(q) => self.points@.to_multiset().add(q.entries_sum()),
        }
    }

    /// The multiset of all stored positions in the subtree.
    pub closed spec fn positions(self) -> Multiset<Vec2I>
        decreases self,
    {
        match self.children {
            None => seq_positions(self.points@),
            Some(q) => seq_positions(self.points@).add(q.positions_sum()),
        }
    }

    /// The boundary the node was created with.
    pub closed spec fn bounds(self) -> Rectangle {
        self.boundary
    }

    /// The per-node direct-storage capacity.
    pub closed spec fn cap(self) -> int {
        self.capacity as int
    }

    /// Whether the node currently has quadrants.
    pub closed spec fn subdivided(self) -> bool {
        self.children is Some
    }

    /// Structural invariant of a node.
    ///
    /// - the boundary is well formed and the capacity positive;
    /// - at most `capacity` pairs are stored directly, all inside the
    ///   boundary;
    /// - `count` caches the subtree's total number of pairs;
    /// - quadrants, when present, fit this node (see `Quads::wf_for`)
    ///   and hold at least one pair in total: a node never stays
    ///   subdivided with empty quadrants.
    pub closed spec fn wf(self) -> bool
        decreases self,
    {
        &&& self.boundary.wf()
        &&& self.capacity >= 1
        &&& self.points@.len() <= self.capacity
        &&& (forall|i: int|
            0 <= i < self.points@.len() ==> self.boundary.contains_pt(
                (#[trigger] self.points@[i]).position,
            ))
        &&& self.count == self.entries().len()
        &&& match self.children {
            None => true,
            Some(q) => q.wf_for(self.boundary, self.capacity as int) && q.entries_sum().len() >= 1,
        }
    }

    /// Creates an empty, undivided root covering `boundary`.
    pub fn new(boundary: Rectangle, capacity: usize) -> (t: QuadTree)
        requires
            boundary.wf(),
            capacity >= 1,
        ensures
            t.wf(),
            t.entries() == Multiset::<AgentState>::empty(),
            t.positions() == Multiset::<Vec2I>::empty(),
            t.bounds() == boundary,
            t.cap() == capacity,
            !t.subdivided(),
    {
        let t = QuadTree { boundary, capacity, count: 0, points: Vec::new(), children: None };
        proof {
            assert(t.entries() =~= Multiset::<AgentState>::empty());
            assert(t.positions() =~= Multiset::<Vec2I>::empty());
        }
        t
    }

    /// Number of pairs stored in the whole subtree.
    pub fn len(&self) -> (n: usize)
        requires
            self.wf(),
        ensures
            n == self.entries().len(),
    {
        self.count
    }

    /// Whether the root node currently has quadrants.
    pub fn is_subdivided(&self) -> (r: bool)
        ensures
            r == self.subdivided(),
    {
        self.children.is_some()
    }

    /// Creates the four empty quadrants. The node is left in the
    /// transient state where it is subdivided with empty quadrants; the
    /// caller stores a pair into one of them right away.
    fn subdivide(&mut self)
        requires
            old(self).wf(),
            old(self).children is None,
        ensures
            final(self).boundary == old(self).boundary,
            final(self).capacity == old(self).capacity,
            final(self).count == old(self).count,
            final(self).points == old(self).points,
            final(self).entries() == old(self).entries(),
            final(self).positions() == old(self).positions(),
            final(self).children is Some,
            ({
                let q = final(self).children.unwrap();
                &&& q.wf_for(old(self).boundary, old(self).capacity as int)
                &&& q.nw.children is None && q.ne.children is None && q.sw.children is None
                    && q.se.children is None
                &&& q.nw.points@.len() == 0 && q.ne.points@.len() == 0 && q.sw.points@.len() == 0
                    && q.se.points@.len() == 0
                &&& q.entries_sum() == Multiset::<AgentState>::empty()
                &&& q.positions_sum() == Multiset::<Vec2I>::empty()
            }),
    {
        proof {
            lemma_quadrants_wf(self.boundary);
        }
        let (nw_r, ne_r, sw_r, se_r) = self.boundary.quadrants();
        let cap = self.capacity;
        self.children = Some(
            Box::new(
                Quads {
                    nw: QuadTree::new(nw_r, cap),
                    ne: QuadTree::new(ne_r, cap),
                    sw: QuadTree::new(sw_r, cap),
                    se: QuadTree::new(se_r, cap),
                },
            ),
        );
        proof {
            assert(self.children.unwrap().entries_sum() =~= Multiset::<AgentState>::empty());
            assert(self.children.unwrap().positions_sum() =~= Multiset::<Vec2I>::empty());
            assert(self.entries() =~= old(self).entries());
            assert(self.positions() =~= old(self).positions());
        }
    }

    /// Stores a pair directly in an empty, undivided node.
    fn store_leaf(t: &mut QuadTree, point: AgentState)
        requires
            old(t).wf(),
            old(t).children is None,
            old(t).points@.len() == 0,
            old(t).boundary.contains_pt(point.position),
        ensures
            final(t).wf(),
            final(t).boundary == old(t).boundary,
            final(t).capacity == old(t).capacity,
            final(t).children is None,
            final(t).entries() == old(t).entries().insert(point),
            final(t).positions() == old(t).positions().insert(point.position),
    {
        t.points.push(point);
        t.count = t.count + 1;
        proof {
            lemma_seq_positions_push(old(t).points@, point);
        }
    }

    /// Inserts a pair known to lie within this node's boundary.
    fn insert_inner(&mut self, point: AgentState)
        requires
            old(self).wf(),
            old(self).boundary.contains_pt(point.position),
            old(self).entries().len() < usize::MAX,
        ensures
            final(self).wf(),
            final(self).boundary == old(self).boundary,
            final(self).capacity == old(self).capacity,
            final(self).entries() == old(self).entries().insert(point),
            final(self).positions() == old(self).positions().insert(point.position),
        decreases *old(self),
    {
        if self.children.is_some() {
            let mut ch = self.children.take().unwrap();
            if ch.nw.boundary.contains(&point.position) {
                ch.nw.insert_inner(point);
            } else if ch.ne.boundary.contains(&point.position) {
                ch.ne.insert_inner(point);
            } else if ch.sw.boundary.contains(&point.position) {
                ch.sw.insert_inner(point);
            } else {
                proof {
                    lemma_quadrants_cover(self.boundary, point.position);
                }
                ch.se.insert_inner(point);
            }
            self.count = self.count + 1;
            self.children = Some(ch);
            proof {
                assert(self.entries() =~= old(self).entries().insert(point));
                assert(self.positions() =~= old(self).positions().insert(point.position));
            }
        } else if self.points.len() < self.capacity {
            self.points.push(point);
            self.count = self.count + 1;
            proof {
                lemma_seq_positions_push(old(self).points@, point);
            }
        } else {
            self.subdivide();
            let mut ch = self.children.take().unwrap();
            if ch.nw.boundary.contains(&point.position) {
                Self::store_leaf(&mut ch.nw, point);
            } else if ch.ne.boundary.contains(&point.position) {
                Self::store_leaf(&mut ch.ne, point);
            } else if ch.sw.boundary.contains(&point.position) {
                Self::store_leaf(&mut ch.sw, point);
            } else {
                proof {
                    lemma_quadrants_cover(self.boundary, point.position);
                }
                Self::store_leaf(&mut ch.se, point);
            }
            self.count = self.count + 1;
            self.children = Some(ch);
            proof {
                assert(self.entries() =~= old(self).entries().insert(point));
                assert(self.positions() =~= old(self).positions().insert(point.position));
            }
        }
    }

    /// Inserts a pair. A position outside the root boundary is
    /// rejected (`stored == false`) and leaves the tree unchanged, so
    /// the index never silently drops data.
    pub fn insert(&mut self, point: AgentState) -> (stored: bool)
        requires
            old(self).wf(),
            old(self).entries().len() < usize::MAX,
        ensures
            final(self).wf(),
            final(self).bounds() == old(self).bounds(),
            final(self).cap() == old(self).cap(),
            stored == old(self).bounds().contains_pt(point.position),
            stored ==> final(self).entries() == old(self).entries().insert(point),
            stored ==> final(self).positions() == old(self).positions().insert(point.position),
            !stored ==> *final(self) == *old(self),
    {
        if self.boundary.contains(&point.position) {
            self.insert_inner(point);
            true
        } else {
            false
        }
    }

    /// Collects every stored pair whose position lies in `region`.
    ///
    /// A node whose boundary does not overlap `region` contributes
    /// nothing, without visiting its subtree (pruning); a query region
    /// that covers the whole boundary returns every pair.
    pub fn query(&self, region: &Rectangle) -> (found: Vec<AgentState>)
        requires
            self.wf(),
            region.wf(),
        ensures
            found@.to_multiset() == region_filter(self.entries(), *region),
            !region.overlaps(self.bounds()) ==> found@.len() == 0,
            (forall|p: Vec2I| self.bounds().contains_pt(p) ==> region.contains_pt(p))
                ==> found@.to_multiset() == self.entries(),
        decreases self,
    {
        let mut found: Vec<AgentState> = Vec::new();
        if !self.boundary.intersects(region) {
            proof {
                assert forall|e: AgentState|
                    region_filter(self.entries(), *region).count(e) == 0 by {
                    if self.entries().count(e) > 0 {
                        lemma_entries_positions(*self, e);
                        lemma_positions_in_boundary(*self, e.position);
                        if region.contains_pt(e.position) {
                            lemma_common_point_overlaps(*region, self.boundary, e.position);
                        }
                    }
                }
                assert(found@.to_multiset() =~= region_filter(self.entries(), *region));
                if forall|p: Vec2I| self.bounds().contains_pt(p) ==> region.contains_pt(p) {
                    let c = self.boundary.position;
                    assert(self.boundary.contains_pt(c));
                    lemma_common_point_overlaps(*region, self.boundary, c);
                }
            }
            return found;
        }
        let mut i: usize = 0;
        while i < self.points.len()
            invariant
                self.wf(),
                region.wf(),
                i <= self.points@.len(),
                found@.to_multiset() == region_filter(
                    self.points@.take(i as int).to_multiset(),
                    *region,
                ),
            decreases self.points@.len() - i,
        {
            proof {
                assert(self.points@.take(i as int + 1) =~= self.points@.take(i as int).push(
                    self.points@[i as int],
                ));
                lemma_region_filter_insert(
                    self.points@.take(i as int).to_multiset(),
                    self.points@[i as int],
                    *region,
                );
            }
            if region.contains(&self.points[i].position) {
                found.push(self.points[i]);
            }
            i = i + 1;
        }
        proof {
            assert(self.points@.take(self.points@.len() as int) =~= self.points@);
        }
        match &self.children {
            None => {},
            Some(q) => {
                let mut r_nw = q.nw.query(region);
                let mut r_ne = q.ne.query(region);
                let mut r_sw = q.sw.query(region);
                let mut r_se = q.se.query(region);
                proof {
                    vstd::seq_lib::lemma_multiset_commutative(found@, r_nw@);
                    vstd::seq_lib::lemma_multiset_commutative(found@ + r_nw@, r_ne@);
                    vstd::seq_lib::lemma_multiset_commutative(found@ + r_nw@ + r_ne@, r_sw@);
                    vstd::seq_lib::lemma_multiset_commutative(
                        found@ + r_nw@ + r_ne@ + r_sw@,
                        r_se@,
                    );
                    lemma_region_filter_add(self.points@.to_multiset(), q.nw.entries(), *region);
                    lemma_region_filter_add(
                        self.points@.to_multiset().add(q.nw.entries()),
                        q.ne.entries(),
                        *region,
                    );
                    lemma_region_filter_add(
                        self.points@.to_multiset().add(q.nw.entries()).add(q.ne.entries()),
                        q.sw.entries(),
                        *region,
                    );
                    lemma_region_filter_add(
                        self.points@.to_multiset().add(q.nw.entries()).add(q.ne.entries()).add(
                            q.sw.entries(),
                        ),
                        q.se.entries(),
                        *region,
                    );
                    assert(self.entries() == self.points@.to_multiset().add(q.nw.entries()).add(
                        q.ne.entries(),
                    ).add(q.sw.entries()).add(q.se.entries()));
                }
                found.append(&mut r_nw);
                found.append(&mut r_ne);
                found.append(&mut r_sw);
                found.append(&mut r_se);
            },
        }
        proof {
            if forall|p: Vec2I| self.bounds().contains_pt(p) ==> region.contains_pt(p) {
                assert forall|e: AgentState|
                    region_filter(self.entries(), *region).count(e) == self.entries().count(
                        e,
                    ) by {
                    if self.entries().count(e) > 0 {
                        lemma_entries_positions(*self, e);
                        lemma_positions_in_boundary(*self, e.position);
                    }
                }
                assert(region_filter(self.entries(), *region) =~= self.entries());
            }
        }
        found
    }

    /// Index of the first directly-stored pair at `position`, if any.
    fn find_direct(&self, position: Vec2I) -> (r: Option<usize>)
        ensures
            match r {
                Some(i) => 0 <= i < self.points@.len() && self.points@[i as int].position
                    == position,
                None => forall|j: int|
                    0 <= j < self.points@.len() ==> (#[trigger] self.points@[j]).position
                        != position,
            },
    {
        let mut i: usize = 0;
        while i < self.points.len()
            invariant
                i <= self.points@.len(),
                forall|j: int| 0 <= j < i ==> (#[trigger] self.points@[j]).position != position,
            decreases self.points@.len() - i,
        {
            if self.points[i].position == position {
                return Some(i);
            }
            i = i + 1;
        }
        None
    }

    /// Removes from the quadrant responsible for `position` (the first
    /// one, in routing order, whose rectangle contains it).
    fn remove_from_quads(ch: &mut Quads, boundary: &Rectangle, position: Vec2I) -> (removed: bool)
        requires
            boundary.wf(),
            old(ch).wf_for(*boundary, old(ch).nw.capacity as int),
        ensures
            final(ch).wf_for(*boundary, old(ch).nw.capacity as int),
            final(ch).nw.capacity == old(ch).nw.capacity,
            removed == old(ch).positions_sum().contains(position),
            removed ==> final(ch).positions_sum() == old(ch).positions_sum().remove(position),
            removed ==> removed_one(old(ch).entries_sum(), final(ch).entries_sum(), position),
            removed ==> final(ch).entries_sum().len() == old(ch).entries_sum().len() - 1,
            !removed ==> final(ch).entries_sum() == old(ch).entries_sum()
                && final(ch).positions_sum() == old(ch).positions_sum(),
        decreases *old(ch),
    {
        proof {
            lemma_quadrants_wf(*boundary);
            if old(ch).nw.positions().contains(position) {
                lemma_positions_in_boundary(old(ch).nw, position);
            }
            if old(ch).ne.positions().contains(position) {
                lemma_positions_in_boundary(old(ch).ne, position);
            }
            if old(ch).sw.positions().contains(position) {
                lemma_positions_in_boundary(old(ch).sw, position);
            }
            if old(ch).se.positions().contains(position) {
                lemma_positions_in_boundary(old(ch).se, position);
            }
        }
        let removed = if ch.nw.boundary.contains(&position) {
            ch.nw.remove_point(position)
        } else if ch.ne.boundary.contains(&position) {
            ch.ne.remove_point(position)
        } else if ch.sw.boundary.contains(&position) {
            ch.sw.remove_point(position)
        } else if ch.se.boundary.contains(&position) {
            ch.se.remove_point(position)
        } else {
            false
        };
        proof {
            if removed {
                assert(ch.positions_sum() =~= old(ch).positions_sum().remove(position));
                let qb = old(ch).entries_sum();
                if old(ch).nw.entries() != ch.nw.entries() {
                    let w = choose|e: AgentState|
                        (#[trigger] old(ch).nw.entries().count(e)) > 0 && e.position == position
                            && ch.nw.entries() == old(ch).nw.entries().remove(e);
                    assert(ch.entries_sum() =~= qb.remove(w));
                    assert(qb.count(w) > 0);
                } else if old(ch).ne.entries() != ch.ne.entries() {
                    let w = choose|e: AgentState|
                        (#[trigger] old(ch).ne.entries().count(e)) > 0 && e.position == position
                            && ch.ne.entries() == old(ch).ne.entries().remove(e);
                    assert(ch.entries_sum() =~= qb.remove(w));
                    assert(qb.count(w) > 0);
                } else if old(ch).sw.entries() != ch.sw.entries() {
                    let w = choose|e: AgentState|
                        (#[trigger] old(ch).sw.entries().count(e)) > 0 && e.position == position
                            && ch.sw.entries() == old(ch).sw.entries().remove(e);
                    assert(ch.entries_sum() =~= qb.remove(w));
                    assert(qb.count(w) > 0);
                } else {
                    let w = choose|e: AgentState|
                        (#[trigger] old(ch).se.entries().count(e)) > 0 && e.position == position
                            && ch.se.entries() == old(ch).se.entries().remove(e);
                    assert(ch.entries_sum() =~= qb.remove(w));
                    assert(qb.count(w) > 0);
                }
                let w2 = choose|e: AgentState|
                    (#[trigger] qb.count(e)) > 0 && e.position == position && ch.entries_sum()
                        == qb.remove(e);
                assert(qb.remove(w2).insert(w2) =~= qb);
            }
        }
        removed
    }

    /// Removes one pair stored at `position` (matching by position
    /// alone; the first direct match, else the match found in the
    /// quadrant responsible for `position`). Returns whether a pair was
    /// removed. When a removal leaves every quadrant of a node empty,
    /// the node collapses: its quadrants are discarded and it becomes
    /// undivided again.
    #[verifier::rlimit(60)]
    pub fn remove_point(&mut self, position: Vec2I) -> (removed: bool)
        requires
            old(self).wf(),
        ensures
            final(self).wf(),
            final(self).bounds() == old(self).bounds(),
            final(self).cap() == old(self).cap(),
            removed == old(self).positions().contains(position),
            removed ==> final(self).positions() == old(self).positions().remove(position),
            removed ==> removed_one(old(self).entries(), final(self).entries(), position),
            removed ==> final(self).entries().len() == old(self).entries().len() - 1,
            !removed ==> final(self).entries() == old(self).entries() && final(self).positions()
                == old(self).positions(),
        decreases *old(self),
    {
        proof {
            lemma_seq_positions_contains(self.points@, position);
        }
        match self.find_direct(position) {
            Some(i) => {
                let e = self.points[i];
                proof {
                    assert(self.points@.contains(e));
                    assert(self.points@.to_multiset().count(e) > 0);
                    assert(self.entries().count(e) > 0);
                }
                self.points.remove(i);
                self.count = self.count - 1;
                proof {
                    lemma_seq_positions_remove(old(self).points@, i as int);
                    assert(self.entries() =~= old(self).entries().remove(e));
                    assert(self.positions() =~= old(self).positions().remove(position));
                    assert(old(self).entries().remove(e).insert(e) =~= old(self).entries());
                    assert(removed_one(old(self).entries(), self.entries(), position));
                }
                true
            },
            None => {
                if self.children.is_some() {
                    let mut ch = self.children.take().unwrap();
                    let removed = Self::remove_from_quads(&mut ch, &self.boundary, position);
                    if removed {
                        self.count = self.count - 1;
                    }
                    let ghost ch_g = *ch;
                    let ghost qb = old(self).children.unwrap();
                    proof {
                        assert(ch_g.entries_sum().len() <= old(self).entries().len());
                        assert(ch_g.nw.count + ch_g.ne.count + ch_g.sw.count + ch_g.se.count
                            == ch_g.entries_sum().len());
                    }
                    let total = ch.nw.count + ch.ne.count + ch.sw.count + ch.se.count;
                    if total == 0 {
                        self.children = None;
                        proof {
                            assert(ch_g.entries_sum().len() == 0);
                            lemma_position_count(ch_g.nw);
                            lemma_position_count(ch_g.ne);
                            lemma_position_count(ch_g.sw);
                            lemma_position_count(ch_g.se);
                            assert(ch_g.positions_sum().len() == 0);
                            assert(ch_g.entries_sum() =~= Multiset::<AgentState>::empty());
                            assert(ch_g.positions_sum() =~= Multiset::<Vec2I>::empty());
                        }
                    } else {
                        self.children = Some(ch);
                    }
                    proof {
                        if removed {
                            assert(old(self).positions().contains(position));
                            let w = choose|e: AgentState|
                                (#[trigger] qb.entries_sum().count(e)) > 0 && e.position == position
                                    && ch_g.entries_sum() == qb.entries_sum().remove(e);
                            if self.children is None {
                                assert(qb.entries_sum().remove(w) =~= Multiset::<
                                    AgentState,
                                >::empty());
                                assert(qb.entries_sum() =~= Multiset::<AgentState>::empty().insert(
                                    w,
                                ));
                                assert(qb.positions_sum().remove(position) =~= Multiset::<
                                    Vec2I,
                                >::empty());
                                assert(qb.positions_sum() =~= Multiset::<Vec2I>::empty().insert(
                                    position,
                                ));
                                assert(self.entries() =~= old(self).entries().remove(w));
                                assert(self.positions() =~= old(self).positions().remove(
                                    position,
                                ));
                            } else {
                                assert(self.entries() =~= old(self).entries().remove(w));
                                assert(self.positions() =~= old(self).positions().remove(
                                    position,
                                ));
                            }
                            assert(old(self).entries().count(w) > 0);
                            assert(removed_one(old(self).entries(), self.entries(), position));
                            assert(old(self).entries().remove(w).insert(w) =~= old(self).entries());
                        } else {
                            assert(self.entries() =~= old(self).entries());
                            assert(self.positions() =~= old(self).positions());
                            assert(!old(self).positions().contains(position));
                        }
                    }
                    removed
                } else {
                    proof {
                        assert(!old(self).positions().contains(position));
                    }
                    false
                }
            },
        }
    }

    /// Removes the pair stored at `current.position` (if any), then
    /// inserts `new_point`: the index-side step of moving an agent.
    /// Returns whether the removal succeeded; the insertion happens
    /// regardless, so a caller passing a stale `current` position keeps
    /// its new pair in the index either way.
    pub fn move_point(&mut self, current: AgentState, new_point: AgentState) -> (moved: bool)
        requires
            old(self).wf(),
            old(self).entries().len() < usize::MAX,
        ensures
            final(self).wf(),
            final(self).bounds() == old(self).bounds(),
            final(self).cap() == old(self).cap(),
            moved == old(self).positions().contains(current.position),
            ({
                let mid = if moved {
                    old(self).positions().remove(current.position)
                } else {
                    old(self).positions()
                };
                final(self).positions() == if old(self).bounds().contains_pt(new_point.position) {
                    mid.insert(new_point.position)
                } else {
                    mid
                }
            }),
            moved ==> exists|e: AgentState|
                (#[trigger] old(self).entries().count(e)) > 0 && e.position == current.position
                    && final(self).entries() == if old(self).bounds().contains_pt(
                    new_point.position,
                ) {
                    old(self).entries().remove(e).insert(new_point)
                } else {
                    old(self).entries().remove(e)
                },
            !moved ==> final(self).entries() == if old(self).bounds().contains_pt(
                new_point.position,
            ) {
                old(self).entries().insert(new_point)
            } else {
                old(self).entries()
            },
    {
        let moved = self.remove_point(current.position);
        let ghost mid_entries = self.entries();
        let _stored = self.insert(new_point);
        proof {
            if moved {
                let w = choose|e: AgentState|
                    (#[trigger] old(self).entries().count(e)) > 0 && e.position == current.position
                        && mid_entries == old(self).entries().remove(e);
                assert((#[trigger] old(self).entries().count(w)) > 0 && w.position
                    == current.position && final(self).entries() == if old(
                    self,
                ).bounds().contains_pt(new_point.position) {
                    old(self).entries().remove(w).insert(new_point)
                } else {
                    old(self).entries().remove(w)
                });
            }
        }
        moved
    }
}

/// Every stored position lies inside the node's boundary.
pub proof fn lemma_positions_in_boundary(t: QuadTree, p: Vec2I)
    requires
        t.wf(),
        t.positions().contains(p),
    ensures
        t.bounds().contains_pt(p),
    decreases t,
{
    lemma_seq_positions_contains(t.points@, p);
    lemma_quadrants_wf(t.boundary);
    match t.children {
        None => {},
        Some(q) => {
            if seq_positions(t.points@).contains(p) {
            } else if q.nw.positions().contains(p) {
                lemma_positions_in_boundary(q.nw, p);
            } else if q.ne.positions().contains(p) {
                lemma_positions_in_boundary(q.ne, p);
            } else if q.sw.positions().contains(p) {
                lemma_positions_in_boundary(q.sw, p);
            } else {
                assert(q.se.positions().contains(p));
                lemma_positions_in_boundary(q.se, p);
            }
        },
    }
}

/// Every stored entry's position is a stored position.
pub proof fn lemma_entries_positions(t: QuadTree, e: AgentState)
    requires
        t.wf(),
        t.entries().contains(e),
    ensures
        t.positions().contains(e.position),
    decreases t,
{
    if t.points@.to_multiset().contains(e) {
        let i = choose|i: int| 0 <= i < t.points@.len() && t.points@[i] == e;
        assert(t.points@[i].position == e.position);
        lemma_seq_positions_contains(t.points@, e.position);
    } else {
        match t.children {
            None => {},
            Some(q) => {
                if q.nw.entries().contains(e) {
                    lemma_entries_positions(q.nw, e);
                } else if q.ne.entries().contains(e) {
                    lemma_entries_positions(q.ne, e);
                } else if q.sw.entries().contains(e) {
                    lemma_entries_positions(q.sw, e);
                } else {
                    assert(q.se.entries().contains(e));
                    lemma_entries_positions(q.se, e);
                }
            },
        }
    }
}

/// A subtree holds as many positions as entries.
pub proof fn lemma_position_count(t: QuadTree)
    requires
        t.wf(),
    ensures
        t.positions().len() == t.entries().len(),
    decreases t,
{
    lemma_seq_positions_len(t.points@);
    match t.children {
        None => {},
        Some(q) => {
            lemma_position_count(q.nw);
            lemma_position_count(q.ne);
            lemma_position_count(q.sw);
            lemma_position_count(q.se);
        },
    }
}

/// Removal correctness: once `p` is no longer among a tree's
/// positions — for instance after `remove_point(p)` removed its only
/// occurrence — no stored entry carries it, so no query can return a
/// pair at `p`.
pub proof fn lemma_no_entry_at_absent_position(t: QuadTree, p: Vec2I, region: Rectangle)
    requires
        t.wf(),
        !t.positions().contains(p),
    ensures
        forall|e: AgentState|
            (#[trigger] region_filter(t.entries(), region).count(e)) > 0 ==> e.position != p,
{
    assert forall|e: AgentState|
        (#[trigger] region_filter(t.entries(), region).count(e)) > 0 implies e.position != p by {
        assert(t.entries().count(e) > 0);
        lemma_entries_positions(t, e);
    }
}

/// One removal of a position stored exactly once clears it entirely.
pub proof fn lemma_remove_clears_position(ps: Multiset<Vec2I>, p: Vec2I)
    requires
        ps.count(p) == 1,
    ensures
        !ps.remove(p).contains(p),
{
}

/// Move correctness: when `old_p` was stored exactly once and nothing
/// was stored at `new_p`, the position multiset `move_point` leaves
/// behind holds exactly one pair at `new_p` and none at `old_p`.
pub proof fn lemma_move_correctness(
    before: Multiset<Vec2I>,
    after: Multiset<Vec2I>,
    old_p: Vec2I,
    new_p: Vec2I,
)
    requires
        before.count(old_p) == 1,
        before.count(new_p) == 0,
        old_p != new_p,
        after == before.remove(old_p).insert(new_p),
    ensures
        after.count(new_p) == 1,
        after.count(old_p) == 0,
{
}

/// A node with an empty subtree is not subdivided: subdivision only
/// ever exists while some quadrant still holds a pair.
pub proof fn lemma_empty_not_subdivided(t: QuadTree)
    requires
        t.wf(),
        t.entries().len() == 0,
    ensures
        !t.subdivided(),
{
}

} // verus!
