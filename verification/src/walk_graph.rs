//! Breadth-first walks over the code graph, driven by a caller that reads
//! the edges: the walk decides which nodes are new, which distance they are
//! reported at, and when the walk stops.

use vstd::prelude::*;
use crate::model::NodeId;
use crate::index::contains_id;

verus! {

/// A level-by-level walk from a set of seed nodes: each node is reported at
/// most once, at the first distance it is reached, and the walk stops after
/// `max_depth` levels or at the first level that reaches no new node.
pub struct LevelWalk {
    visited: Vec<NodeId>,
    frontier: Vec<NodeId>,
    next: Vec<NodeId>,
    distance: usize,
    max_depth: usize,
    stopped: bool,
}

/// Mathematical value of a [`LevelWalk`].
pub ghost struct LevelWalkView {
    pub visited: Seq<NodeId>,
    pub frontier: Seq<NodeId>,
    pub next: Seq<NodeId>,
    pub distance: int,
    pub max_depth: int,
    pub stopped: bool,
}

impl View for LevelWalk {
    type V = LevelWalkView;

    closed spec fn view(&self) -> LevelWalkView {
        LevelWalkView {
            visited: self.visited@,
            frontier: self.frontier@,
            next: self.next@,
            distance: self.distance as int,
            max_depth: self.max_depth as int,
            stopped: self.stopped,
        }
    }
}

fn copy_ids(v: &Vec<NodeId>) -> (r: Vec<NodeId>)
    ensures
        r@ == v@,
{
    let mut out: Vec<NodeId> = Vec::new();
    let mut i: usize = 0;
    while i < v.len()
        invariant
            i <= v.len(),
            out@ == v@.take(i as int),
        decreases v.len() - i,
    {
        out.push(v[i]);
        i = i + 1;
        proof {
            assert(out@ =~= v@.take(i as int));
        }
    }
    proof {
        assert(v@.take(v.len() as int) =~= v@);
    }
    out
}

impl LevelWalk {
    /// A walk at distance 1 from the seeds, which count as visited. It is
    /// stopped from the start when `max_depth` is 0.
    pub fn new(seeds: &Vec<NodeId>, max_depth: usize) -> (r: LevelWalk)
        ensures
            r@.visited == seeds@,
            r@.frontier == seeds@,
            r@.next == Seq::<NodeId>::empty(),
            r@.distance == 1,
            r@.max_depth == max_depth,
            r@.stopped == (max_depth == 0),
    {
        LevelWalk {
            visited: copy_ids(seeds),
            frontier: copy_ids(seeds),
            next: Vec::new(),
            distance: 1,
            max_depth,
            stopped: max_depth == 0,
        }
    }

    /// Whether the walk still has a level to explore.
    pub fn active(&self) -> (r: bool)
        ensures
            r == !self@.stopped,
    {
        !self.stopped
    }

    /// Distance of the level being explored.
    pub fn distance(&self) -> (r: usize)
        ensures
            r == self@.distance,
    {
        self.distance
    }

    /// The nodes whose edges make up the current level.
    pub fn frontier(&self) -> (r: Vec<NodeId>)
        ensures
            r@ == self@.frontier,
    {
        copy_ids(&self.frontier)
    }

    /// Mark a node reached; true exactly when it was not reached before.
    pub fn visit(&mut self, id: NodeId) -> (r: bool)
        ensures
            r == !old(self)@.visited.contains(id),
            final(self)@.visited == if r {
                old(self)@.visited.push(id)
            } else {
                old(self)@.visited
            },
            final(self)@.frontier == old(self)@.frontier,
            final(self)@.next == old(self)@.next,
            final(self)@.distance == old(self)@.distance,
            final(self)@.max_depth == old(self)@.max_depth,
            final(self)@.stopped == old(self)@.stopped,
    {
        if contains_id(&self.visited, &id) {
            false
        } else {
            self.visited.push(id);
            true
        }
    }

    /// Report a newly reached node at the current distance: it joins the
    /// frontier of the next level.
    pub fn keep(&mut self, id: NodeId)
        ensures
            final(self)@.next == old(self)@.next.push(id),
            final(self)@.visited == old(self)@.visited,
            final(self)@.frontier == old(self)@.frontier,
            final(self)@.distance == old(self)@.distance,
            final(self)@.max_depth == old(self)@.max_depth,
            final(self)@.stopped == old(self)@.stopped,
    {
        self.next.push(id);
    }

    /// Close the current level. The walk stops when the level reported no
    /// node or the next distance is beyond `max_depth`; otherwise the
    /// reported nodes become the frontier of the next distance.
    pub fn end_level(&mut self)
        ensures
            final(self)@.stopped == (old(self)@.stopped || old(self)@.next.len() == 0 || old(self)@.distance
                + 1 > old(self)@.max_depth),
            final(self)@.frontier == old(self)@.next,
            final(self)@.next == Seq::<NodeId>::empty(),
            final(self)@.distance == if old(self)@.distance < usize::MAX {
                old(self)@.distance + 1
            } else {
                old(self)@.distance
            },
            final(self)@.visited == old(self)@.visited,
            final(self)@.max_depth == old(self)@.max_depth,
    {
        let done = self.next.len() == 0 || self.distance >= self.max_depth;
        let mut next: Vec<NodeId> = Vec::new();
        std::mem::swap(&mut next, &mut self.next);
        self.frontier = next;
        if self.distance < usize::MAX {
            self.distance = self.distance + 1;
        }
        self.stopped = self.stopped || done;
    }
}

} // verus!
