use vstd::prelude::*;
use vstd::multiset::Multiset;
use vstd::seq_lib::lemma_multiset_commutative;
use crate::boid::Boid;
use crate::region::{lemma_quadrants_partition, Region};
use crate::vec::Vector2;

verus! {

broadcast use {
    vstd::multiset::group_multiset_axioms,
    vstd::seq_lib::to_multiset_build,
    vstd::seq_lib::to_multiset_contains,
};

/// The boids of `s` that lie strictly inside `q`, in order.
pub open spec fn in_region(s: Seq<Boid>, q: Region) -> Seq<Boid> {
    s.filter(|b: Boid| q.contains_point(b.position))
}

/// The boids of `m` whose position `t` still covers.
pub open spec fn kept(m: Multiset<Boid>, t: QuadNode) -> Multiset<Boid> {
    m.filter(|a: Boid| t.covers(a.position))
}

/// A node of the spatial index: a leaf holding boids, or an inner node whose
/// four children cover the quadrants of its boundary.
#[derive(Debug)]
pub enum QuadNode {
    Leaf { boundary: Region, boids: Vec<Boid> },
    Root {
        boundary: Region,
        nw: Box<QuadNode>,
        ne: Box<QuadNode>,
        sw: Box<QuadNode>,
        se: Box<QuadNode>,
    },
}

impl QuadNode {
    pub open spec fn boundary(self) -> Region {
        match self {
            QuadNode::Leaf { boundary, .. } => boundary,
            QuadNode::Root { boundary, .. } => boundary,
        }
    }

    /// The boids held, leaves taken in the order upper-left, upper-right,
    /// lower-left, lower-right.
    pub open spec fn contents(self) -> Seq<Boid>
        decreases self,
    {
        match self {
            QuadNode::Leaf { boids, .. } => boids@,
            QuadNode::Root { nw, ne, sw, se, .. } => nw.contents() + ne.contents() + sw.contents()
                + se.contents(),
        }
    }

    /// Some leaf's boundary holds `p` strictly inside.
    pub open spec fn covers(self, p: Vector2) -> bool
        decreases self,
    {
        match self {
            QuadNode::Leaf { boundary, .. } => boundary.contains_point(p),
            QuadNode::Root { nw, ne, sw, se, .. } => nw.covers(p) || ne.covers(p) || sw.covers(p)
                || se.covers(p),
        }
    }

    /// The boundary of the first leaf, in order, that covers `p`.
    pub open spec fn leaf_at(self, p: Vector2) -> Region
        decreases self,
    {
        match self {
            QuadNode::Leaf { boundary, .. } => boundary,
            QuadNode::Root { nw, ne, sw, se, .. } => if nw.covers(p) {
                nw.leaf_at(p)
            } else if ne.covers(p) {
                ne.leaf_at(p)
            } else if sw.covers(p) {
                sw.leaf_at(p)
            } else {
                se.leaf_at(p)
            },
        }
    }

    /// The boundaries of the leaves, in order.
    pub open spec fn leaves(self) -> Seq<Region>
        decreases self,
    {
        match self {
            QuadNode::Leaf { boundary, .. } => seq![boundary],
            QuadNode::Root { nw, ne, sw, se, .. } => nw.leaves() + ne.leaves() + sw.leaves() + se.leaves(),
        }
    }

    /// Appends the boundaries of the leaves, in order, to `out`.
    pub fn collect_leaf_regions(&self, out: &mut Vec<Region>)
        ensures
            final(out)@ == old(out)@ + self.leaves(),
        decreases self,
    {
        match self {
            QuadNode::Leaf { boundary, .. } => {
                out.push(*boundary);
                assert(old(out)@.push(*boundary) =~= old(out)@ + seq![*boundary]);
            },
            QuadNode::Root { nw, ne, sw, se, .. } => {
                nw.collect_leaf_regions(out);
                ne.collect_leaf_regions(out);
                sw.collect_leaf_regions(out);
                se.collect_leaf_regions(out);
                assert(out@ =~= old(out)@ + self.leaves());
            },
        }
    }

    /// The leaf that covers `p` can take one more boid without splitting.
    pub open spec fn room_at(self, p: Vector2, cap: nat, depth: nat) -> bool
        decreases self,
    {
        match self {
            QuadNode::Leaf { boids, .. } => boids@.len() < cap || depth == 0,
            QuadNode::Root { nw, ne, sw, se, .. } => if depth == 0 {
                false
            } else if nw.covers(p) {
                nw.room_at(p, cap, (depth - 1) as nat)
            } else if ne.covers(p) {
                ne.room_at(p, cap, (depth - 1) as nat)
            } else if sw.covers(p) {
                sw.room_at(p, cap, (depth - 1) as nat)
            } else {
                se.room_at(p, cap, (depth - 1) as nat)
            },
        }
    }

    /// Every leaf holds only boids strictly inside its boundary.
    pub open spec fn holds_inside(self) -> bool
        decreases self,
    {
        match self {
            QuadNode::Leaf { boundary, boids } => boundary.wf() && forall|i: int|
                0 <= i < boids@.len() ==> boundary.contains_point(#[trigger] boids@[i].position),
            QuadNode::Root { nw, ne, sw, se, .. } => nw.holds_inside() && ne.holds_inside()
                && sw.holds_inside() && se.holds_inside(),
        }
    }

    /// Well-formed with leaf capacity `cap` and at most `depth` further levels:
    /// each leaf holds only boids strictly inside its boundary, and no more
    /// than `cap` of them unless it may not split; each inner node's children
    /// cover its quadrants in order.
    pub open spec fn wf(self, cap: nat, depth: nat) -> bool
        decreases self,
    {
        &&& self.boundary().wf()
        &&& self.boundary().is_ordered()
        &&& match self {
            QuadNode::Leaf { boundary, boids } => {
                &&& forall|i: int|
                    0 <= i < boids@.len() ==> boundary.contains_point(#[trigger] boids@[i].position)
                &&& boids@.len() <= cap || depth == 0
            },
            QuadNode::Root { boundary, nw, ne, sw, se } => {
                &&& depth > 0
                &&& nw.boundary() == boundary.quadrants()[0]
                &&& ne.boundary() == boundary.quadrants()[1]
                &&& sw.boundary() == boundary.quadrants()[2]
                &&& se.boundary() == boundary.quadrants()[3]
                &&& nw.wf(cap, (depth - 1) as nat)
                &&& ne.wf(cap, (depth - 1) as nat)
                &&& sw.wf(cap, (depth - 1) as nat)
                &&& se.wf(cap, (depth - 1) as nat)
            },
        }
    }

    pub fn covers_point(&self, p: Vector2) -> (r: bool)
        ensures
            r == self.covers(p),
        decreases self,
    {
        match self {
            QuadNode::Leaf { boundary, .. } => boundary.contains(p),
            QuadNode::Root { nw, ne, sw, se, .. } => nw.covers_point(p) || ne.covers_point(p) || sw.covers_point(p)
                || se.covers_point(p),
        }
    }

    pub fn get_boundary(&self) -> (r: Region)
        ensures
            r == self.boundary(),
    {
        match self {
            QuadNode::Leaf { boundary, .. } => *boundary,
            QuadNode::Root { boundary, .. } => *boundary,
        }
    }

    pub fn count(&self) -> (r: usize)
        requires
            self.contents().len() <= usize::MAX,
        ensures
            r == self.contents().len(),
        decreases self,
    {
        match self {
            QuadNode::Leaf { boids, .. } => boids.len(),
            QuadNode::Root { nw, ne, sw, se, .. } => {
                let a = nw.count();
                let b = ne.count();
                let c = sw.count();
                let d = se.count();
                a + b + c + d
            },
        }
    }

    /// Appends to `found` every boid held that lies strictly inside `query`,
    /// skipping the subtrees whose boundary does not intersect it.
    pub fn get_all_boids_in_boundry(&self, query: &Region, found: &mut Vec<Boid>)
        requires
            self.holds_inside(),
            query.wf(),
        ensures
            final(found)@ == old(found)@ + in_region(self.contents(), *query),
        decreases self,
    {
        match self {
            QuadNode::Leaf { boundary, boids } => {
                if !query.intersect_with(boundary) {
                    proof {
                        lemma_disjoint_none_inside(boids@, *boundary, *query);
                    }
                    return;
                }
                let mut i: usize = 0;
                while i < boids.len()
                    invariant
                        0 <= i <= boids@.len(),
                        found@ == old(found)@ + in_region(boids@.take(i as int), *query),
                    decreases boids@.len() - i,
                {
                    let b = boids[i];
                    proof {
                        assert(boids@.take(i as int + 1) =~= boids@.take(i as int).push(b));
                        boids@.take(i as int).lemma_filter_push(b, |b: Boid| query.contains_point(b.position));
                    }
                    if query.contains_boid(&b) {
                        found.push(b);
                    }
                    i += 1;
                }
                assert(boids@.take(i as int) =~= boids@);
            },
            QuadNode::Root { nw, ne, sw, se, .. } => {
                nw.get_all_boids_in_boundry(query, found);
                ne.get_all_boids_in_boundry(query, found);
                sw.get_all_boids_in_boundry(query, found);
                se.get_all_boids_in_boundry(query, found);
                proof {
                    let f = |b: Boid| query.contains_point(b.position);
                    Seq::filter_distributes_over_add(nw.contents() + ne.contents() + sw.contents(), se.contents(), f);
                    Seq::filter_distributes_over_add(nw.contents() + ne.contents(), sw.contents(), f);
                    Seq::filter_distributes_over_add(nw.contents(), ne.contents(), f);
                }
            },
        }
    }
}

/// No boid strictly inside `boundary` lies strictly inside a region that does
/// not intersect it.
proof fn lemma_disjoint_none_inside(s: Seq<Boid>, boundary: Region, query: Region)
    requires
        forall|i: int| 0 <= i < s.len() ==> boundary.contains_point(#[trigger] s[i].position),
        !query.intersects(boundary),
        query.wf(),
        boundary.wf(),
    ensures
        in_region(s, query) == Seq::<Boid>::empty(),
    decreases s.len(),
{
    reveal(Seq::filter);
    if s.len() > 0 {
        let t = s.drop_last();
        assert forall|i: int| 0 <= i < t.len() implies boundary.contains_point(#[trigger] t[i].position) by {
            assert(t[i] == s[i]);
        }
        lemma_disjoint_none_inside(t, boundary, query);
        assert(boundary.contains_point(s[s.len() - 1].position));
        assert(!query.contains_point(s.last().position));
        assert(in_region(s, query) == in_region(t, query));
    }
}

/// A well-formed node keeps each boid strictly inside its leaf's boundary.
pub proof fn lemma_wf_holds_inside(t: QuadNode, cap: nat, depth: nat)
    requires
        t.wf(cap, depth),
    ensures
        t.holds_inside(),
    decreases t,
{
    match t {
        QuadNode::Leaf { .. } => {},
        QuadNode::Root { nw, ne, sw, se, .. } => {
            lemma_wf_holds_inside(*nw, cap, (depth - 1) as nat);
            lemma_wf_holds_inside(*ne, cap, (depth - 1) as nat);
            lemma_wf_holds_inside(*sw, cap, (depth - 1) as nat);
            lemma_wf_holds_inside(*se, cap, (depth - 1) as nat);
        },
    }
}

/// An empty leaf over `boundary`.
fn new_leaf(boundary: Region) -> (r: QuadNode)
    ensures
        r == (QuadNode::Leaf { boundary, boids: r->Leaf_boids }),
        r->Leaf_boids@.len() == 0,
{
    QuadNode::Leaf { boundary, boids: Vec::new() }
}

/// Inserts `b` into `node`. A full leaf that may still split becomes an inner
/// node over its quadrants, its boids are inserted anew, and the insertion is
/// retried there; boids that no quadrant holds strictly inside are dropped on
/// the way. Returns the new node and whether `b` was stored.
fn insert_node(node: QuadNode, b: Boid, cap: usize, depth: usize) -> (r: (QuadNode, bool, Region))
    requires
        node.wf(cap as nat, depth as nat),
        cap > 0,
    ensures
        insert_post(node, r.0, b, r.1, cap as nat, depth as nat),
        r.1 ==> r.2 == r.0.leaf_at(b.position),
    decreases depth, 2nat,
{
    proof {
        lemma_kept_all(node, cap as nat, depth as nat);
    }
    match node {
        QuadNode::Leaf { boundary, mut boids } => {
            if !boundary.contains(b.position) {
                proof {
                    let s = node.contents().push(b);
                    assert(s[s.len() - 1] == b);
                }
                return (QuadNode::Leaf { boundary, boids }, false, boundary);
            }
            if boids.len() < cap || depth == 0 {
                boids.push(b);
                let r = QuadNode::Leaf { boundary, boids };
                proof {
                    assert(forall|q: Vector2| #[trigger] r.covers(q) == node.covers(q));
                    lemma_kept_same_cover(node.contents().to_multiset(), node, r);
                }
                return (r, true, boundary);
            }
            let ghost old_boids = boids@;
            let ghost clean = clean_split(boundary, old_boids.push(b), cap as nat);
            let root = subdivide(boundary, boids, cap, depth);
            proof {
                if clean {
                    let sp = old_boids.push(b);
                    let om = old_boids.to_multiset();
                    assert forall|a: Boid| om.count(a) > 0 implies root.covers(a.position) by {
                        assert(old_boids.contains(a));
                        let i = choose|i: int| 0 <= i < old_boids.len() && old_boids[i] == a;
                        assert(sp[i] == a);
                        lemma_quadrants_partition(boundary, a.position);
                    }
                    assert(kept(om, root) =~= om);
                    let pb = b.position;
                    assert(sp[sp.len() - 1] == b);
                    lemma_quadrants_partition(boundary, pb);
                    let k = choose|k: int| 0 <= k < 4 && #[trigger] boundary.quadrants()[k].contains_point(pb);
                    assert(kids(root)[k].covers(pb));
                    lemma_kid_filter(root, cap as nat, depth as nat, k);
                    assert(in_quadrant(sp.to_multiset(), boundary, k) =~= in_quadrant(om, boundary, k).insert(b));
                    vstd::multiset::lemma_insert_len(in_quadrant(om, boundary, k), b);
                    assert(in_quadrant(sp.to_multiset(), boundary, k).len() <= cap);
                    vstd::seq_lib::to_multiset_len(kids(root)[k].contents());
                    lemma_room_via_kid(root, pb, k, cap as nat, depth as nat);
                }
            }
            let (r, ok, leaf) = insert_root(root, b, cap, depth);
            proof {
                lemma_kept_twice(old_boids.to_multiset(), root, r);
                if clean {
                    lemma_shape_four_leaves(root, r);
                    lemma_kept_all(root, cap as nat, depth as nat);
                    lemma_kept_same_cover(root.contents().to_multiset(), root, r);
                }
            }
            (r, ok, leaf)
        },
        QuadNode::Root { .. } => insert_root(node, b, cap, depth),
    }
}

/// Splits a full leaf: an inner node over the quadrants of `boundary`, with
/// each of `boids` inserted into it in turn.
fn subdivide(boundary: Region, boids: Vec<Boid>, cap: usize, depth: usize) -> (r: QuadNode)
    requires
        boundary.wf(),
        boundary.is_ordered(),
        depth > 0,
        cap > 0,
        forall|i: int| 0 <= i < boids@.len() ==> boundary.contains_point(#[trigger] boids@[i].position),
    ensures
        r is Root,
        r.wf(cap as nat, depth as nat),
        r.boundary() == boundary,
        forall|q: Vector2| #[trigger] r.covers(q) ==> boundary.contains_point(q),
        r.contents().to_multiset() == kept(boids@.to_multiset(), r),
        boids@.len() <= cap ==> four_leaves(r),
        boids@.len() <= cap ==> forall|q: Vector2|
            #[trigger] r.covers(q) == exists|k: int| 0 <= k < 4 && #[trigger] boundary.quadrants()[k].contains_point(q),
    decreases depth, 1nat,
{
    let q = Region::sub_into(&boundary);
    let l0 = new_leaf(q[0]);
    let l1 = new_leaf(q[1]);
    let l2 = new_leaf(q[2]);
    let l3 = new_leaf(q[3]);
    proof {
        assert(q@[0] == q[0] && q@[1] == q[1] && q@[2] == q[2] && q@[3] == q[3]);
        assert(l0.contents() =~= Seq::<Boid>::empty());
        assert(l1.contents() =~= Seq::<Boid>::empty());
        assert(l2.contents() =~= Seq::<Boid>::empty());
        assert(l3.contents() =~= Seq::<Boid>::empty());
        assert(l0.wf(cap as nat, (depth - 1) as nat));
        assert(l1.wf(cap as nat, (depth - 1) as nat));
        assert(l2.wf(cap as nat, (depth - 1) as nat));
        assert(l3.wf(cap as nat, (depth - 1) as nat));
    }
    let mut node = QuadNode::Root {
        boundary,
        nw: Box::new(l0),
        ne: Box::new(l1),
        sw: Box::new(l2),
        se: Box::new(l3),
    };
    proof {
        lemma_quadrants_inside(boundary);
        lemma_covers_inside(node, cap as nat, depth as nat);
        assert(node.contents() =~= Seq::<Boid>::empty());
        assert(boids@.take(0) =~= Seq::<Boid>::empty());
        assert(kept(Seq::<Boid>::empty().to_multiset(), node) =~= Multiset::empty());
        assert(kids(node)[0] == l0 && kids(node)[1] == l1 && kids(node)[2] == l2 && kids(node)[3] == l3);
        assert(four_leaves(node));
        assert forall|q: Vector2| #[trigger] node.covers(q) == exists|k: int|
            0 <= k < 4 && #[trigger] boundary.quadrants()[k].contains_point(q) by {
            if boundary.quadrants()[0].contains_point(q) {
                assert(l0.covers(q));
            }
            if boundary.quadrants()[1].contains_point(q) {
                assert(l1.covers(q));
            }
            if boundary.quadrants()[2].contains_point(q) {
                assert(l2.covers(q));
            }
            if boundary.quadrants()[3].contains_point(q) {
                assert(l3.covers(q));
            }
            if l0.covers(q) {
                assert(boundary.quadrants()[0].contains_point(q));
            }
            if l1.covers(q) {
                assert(boundary.quadrants()[1].contains_point(q));
            }
            if l2.covers(q) {
                assert(boundary.quadrants()[2].contains_point(q));
            }
            if l3.covers(q) {
                assert(boundary.quadrants()[3].contains_point(q));
            }
        }
    }
    let ghost node0 = node;
    let mut i: usize = 0;
    while i < boids.len()
        invariant
            0 <= i <= boids@.len(),
            depth > 0,
            cap > 0,
            node is Root,
            node.wf(cap as nat, depth as nat),
            node.boundary() == boundary,
            forall|q: Vector2| #[trigger] node.covers(q) ==> boundary.contains_point(q),
            node.contents().to_multiset() == kept(boids@.take(i as int).to_multiset(), node),
            node.contents().len() <= i,
            boids@.len() <= cap ==> four_leaves(node),
            boids@.len() <= cap ==> forall|q: Vector2| #[trigger] node.covers(q) == node0.covers(q),
        decreases boids@.len() - i,
    {
        let b = boids[i];
        let ghost before = node;
        proof {
            if boids@.len() <= cap && node.covers(b.position) {
                lemma_root_facts(node, cap as nat, depth as nat);
                let k = choose|k: int| 0 <= k < 4 && #[trigger] kids(node)[k].covers(b.position);
                lemma_root_multiset(node);
                vstd::seq_lib::to_multiset_len(kids(node)[0].contents());
                vstd::seq_lib::to_multiset_len(kids(node)[1].contents());
                vstd::seq_lib::to_multiset_len(kids(node)[2].contents());
                vstd::seq_lib::to_multiset_len(kids(node)[3].contents());
                vstd::seq_lib::to_multiset_len(node.contents());
                lemma_room_via_kid(node, b.position, k, cap as nat, depth as nat);
            }
        }
        let (n2, _ok, _leaf) = insert_root(node, b, cap, depth);
        proof {
            assert(boids@.take(i as int + 1) =~= boids@.take(i as int).push(b));
            lemma_kept_twice(boids@.take(i as int).to_multiset(), before, n2);
            lemma_kept_insert(boids@.take(i as int).to_multiset(), n2, b);
            lemma_kept_len(before.contents().to_multiset(), n2);
            vstd::seq_lib::to_multiset_len(before.contents());
            vstd::seq_lib::to_multiset_len(n2.contents());
            if boids@.len() <= cap && before.covers(b.position) {
                lemma_shape_four_leaves(before, n2);
            }
        }
        node = n2;
        i += 1;
    }
    assert(boids@.take(i as int) =~= boids@);
    node
}

/// Inserts `b` into the child of an inner node whose quadrant holds its
/// position strictly inside; fails when there is none.
fn insert_root(node: QuadNode, b: Boid, cap: usize, depth: usize) -> (r: (QuadNode, bool, Region))
    requires
        node is Root,
        node.wf(cap as nat, depth as nat),
        cap > 0,
    ensures
        r.0 is Root,
        insert_post(node, r.0, b, r.1, cap as nat, depth as nat),
        r.1 ==> r.2 == r.0.leaf_at(b.position),
    decreases depth, 0nat,
{
    proof {
        lemma_kept_all(node, cap as nat, depth as nat);
    }
    match node {
        QuadNode::Root { boundary, nw, ne, sw, se } => {
            let p = b.position;
            let ghost (gnw, gne, gsw, gse) = (*nw, *ne, *sw, *se);
            proof {
                lemma_covers_inside(gnw, cap as nat, (depth - 1) as nat);
                lemma_covers_inside(gne, cap as nat, (depth - 1) as nat);
                lemma_covers_inside(gsw, cap as nat, (depth - 1) as nat);
                lemma_covers_inside(gse, cap as nat, (depth - 1) as nat);
                lemma_kept_all(gnw, cap as nat, (depth - 1) as nat);
                lemma_kept_all(gne, cap as nat, (depth - 1) as nat);
                lemma_kept_all(gsw, cap as nat, (depth - 1) as nat);
                lemma_kept_all(gse, cap as nat, (depth - 1) as nat);
            }
            if nw.get_boundary().contains(p) {
                let (n, ok, leaf) = insert_node(*nw, b, cap, depth - 1);
                let r = QuadNode::Root { boundary, nw: Box::new(n), ne, sw, se };
                proof {
                    lemma_covers_inside(n, cap as nat, (depth - 1) as nat);
                    lemma_root_insert(node, r, 0, b, ok, cap as nat, depth as nat);
                    if ok {
                        assert(kids(r)[0] == n);
                        lemma_root_leaf_at(r, 0, b.position, cap as nat, depth as nat);
                    }
                }
                (r, ok, leaf)
            } else if ne.get_boundary().contains(p) {
                let (n, ok, leaf) = insert_node(*ne, b, cap, depth - 1);
                let r = QuadNode::Root { boundary, nw, ne: Box::new(n), sw, se };
                proof {
                    lemma_covers_inside(n, cap as nat, (depth - 1) as nat);
                    lemma_root_insert(node, r, 1, b, ok, cap as nat, depth as nat);
                    if ok {
                        assert(kids(r)[1] == n);
                        lemma_root_leaf_at(r, 1, b.position, cap as nat, depth as nat);
                    }
                }
                (r, ok, leaf)
            } else if sw.get_boundary().contains(p) {
                let (n, ok, leaf) = insert_node(*sw, b, cap, depth - 1);
                let r = QuadNode::Root { boundary, nw, ne, sw: Box::new(n), se };
                proof {
                    lemma_covers_inside(n, cap as nat, (depth - 1) as nat);
                    lemma_root_insert(node, r, 2, b, ok, cap as nat, depth as nat);
                    if ok {
                        assert(kids(r)[2] == n);
                        lemma_root_leaf_at(r, 2, b.position, cap as nat, depth as nat);
                    }
                }
                (r, ok, leaf)
            } else if se.get_boundary().contains(p) {
                let (n, ok, leaf) = insert_node(*se, b, cap, depth - 1);
                let r = QuadNode::Root { boundary, nw, ne, sw, se: Box::new(n) };
                proof {
                    lemma_covers_inside(n, cap as nat, (depth - 1) as nat);
                    lemma_root_insert(node, r, 3, b, ok, cap as nat, depth as nat);
                    if ok {
                        assert(kids(r)[3] == n);
                        lemma_root_leaf_at(r, 3, b.position, cap as nat, depth as nat);
                    }
                }
                (r, ok, leaf)
            } else {
                proof {
                    lemma_root_facts(node, cap as nat, depth as nat);
                    assert(!node.covers(p)) by {
                        if node.covers(p) {
                            let j = choose|j: int| 0 <= j < 4 && #[trigger] kids(node)[j].covers(p);
                            assert(node.boundary().quadrants()[j].contains_point(p));
                        }
                    }
                    assert(changed_only_at(node, node, p));
                }
                (QuadNode::Root { boundary, nw, ne, sw, se }, false, boundary)
            }
        },
        QuadNode::Leaf { boundary, .. } => (node, false, boundary),
    }
}

/// The center of an ordered region lies within it.
proof fn lemma_quadrants_inside(r: Region)
    requires
        r.wf(),
        r.is_ordered(),
    ensures
        r.left_up.x <= r.center().x <= r.right_down.x,
        r.left_up.y <= r.center().y <= r.right_down.y,
        forall|i: int| 0 <= i < 4 ==> (#[trigger] r.quadrants()[i]).wf() && r.quadrants()[i].is_ordered(),
        forall|i: int, p: Vector2|
            0 <= i < 4 && #[trigger] r.quadrants()[i].contains_point(p) ==> r.contains_point(p),
{
}

/// A well-formed node covers only points strictly inside its boundary.
proof fn lemma_covers_inside(t: QuadNode, cap: nat, depth: nat)
    requires
        t.wf(cap, depth),
    ensures
        forall|q: Vector2| #[trigger] t.covers(q) ==> t.boundary().contains_point(q),
    decreases t,
{
    if let QuadNode::Root { boundary, nw, ne, sw, se } = t {
        lemma_quadrants_inside(boundary);
        lemma_covers_inside(*nw, cap, (depth - 1) as nat);
        lemma_covers_inside(*ne, cap, (depth - 1) as nat);
        lemma_covers_inside(*sw, cap, (depth - 1) as nat);
        lemma_covers_inside(*se, cap, (depth - 1) as nat);
        assert forall|q: Vector2| #[trigger] t.covers(q) implies boundary.contains_point(q) by {
            if nw.covers(q) {
                assert(boundary.quadrants()[0].contains_point(q));
            } else if ne.covers(q) {
                assert(boundary.quadrants()[1].contains_point(q));
            } else if sw.covers(q) {
                assert(boundary.quadrants()[2].contains_point(q));
            } else {
                assert(se.covers(q));
                assert(se.boundary().contains_point(q));
                assert(boundary.quadrants()[3].contains_point(q));
            }
        }
    }
}

/// Every boid held by a well-formed node is covered by it.
pub proof fn lemma_contents_covered(t: QuadNode, cap: nat, depth: nat)
    requires
        t.wf(cap, depth),
    ensures
        forall|a: Boid| t.contents().to_multiset().count(a) > 0 ==> t.covers(a.position),
    decreases t,
{
    match t {
        QuadNode::Leaf { boundary, boids } => {
            assert forall|a: Boid| t.contents().to_multiset().count(a) > 0 implies t.covers(a.position) by {
                assert(t.contents() == boids@);
                assert(boids@.contains(a));
                let i = choose|i: int| 0 <= i < boids@.len() && boids@[i] == a;
                assert(boundary.contains_point(boids@[i].position));
            }
        },
        QuadNode::Root { nw, ne, sw, se, .. } => {
            lemma_contents_covered(*nw, cap, (depth - 1) as nat);
            lemma_contents_covered(*ne, cap, (depth - 1) as nat);
            lemma_contents_covered(*sw, cap, (depth - 1) as nat);
            lemma_contents_covered(*se, cap, (depth - 1) as nat);
            lemma_root_multiset(t);
            assert(kids(t)[0] == *nw && kids(t)[1] == *ne && kids(t)[2] == *sw && kids(t)[3] == *se);
            assert forall|a: Boid| t.contents().to_multiset().count(a) > 0 implies t.covers(a.position) by {
                if nw.contents().to_multiset().count(a) > 0 {
                    assert(nw.covers(a.position));
                } else if ne.contents().to_multiset().count(a) > 0 {
                    assert(ne.covers(a.position));
                } else if sw.contents().to_multiset().count(a) > 0 {
                    assert(sw.covers(a.position));
                } else {
                    assert(se.contents().to_multiset().count(a) > 0);
                    assert(se.covers(a.position));
                }
            }
        },
    }
}

/// A well-formed node keeps all it holds under its own coverage.
proof fn lemma_kept_all(t: QuadNode, cap: nat, depth: nat)
    requires
        t.wf(cap, depth),
    ensures
        kept(t.contents().to_multiset(), t) == t.contents().to_multiset(),
{
    lemma_contents_covered(t, cap, depth);
    assert(kept(t.contents().to_multiset(), t) =~= t.contents().to_multiset());
}

proof fn lemma_kept_same_cover(m: Multiset<Boid>, t1: QuadNode, t2: QuadNode)
    requires
        forall|q: Vector2| #[trigger] t2.covers(q) == t1.covers(q),
    ensures
        kept(m, t1) == kept(m, t2),
{
    assert(kept(m, t1) =~= kept(m, t2));
}

proof fn lemma_kept_twice(m: Multiset<Boid>, t1: QuadNode, t2: QuadNode)
    requires
        forall|q: Vector2| #[trigger] t2.covers(q) ==> t1.covers(q),
    ensures
        kept(kept(m, t1), t2) == kept(m, t2),
{
    assert(kept(kept(m, t1), t2) =~= kept(m, t2));
}

proof fn lemma_kept_insert(m: Multiset<Boid>, t: QuadNode, b: Boid)
    ensures
        kept(m.insert(b), t) == (if t.covers(b.position) {
            kept(m, t).insert(b)
        } else {
            kept(m, t)
        }),
{
    if t.covers(b.position) {
        assert(kept(m.insert(b), t) =~= kept(m, t).insert(b));
    } else {
        assert(kept(m.insert(b), t) =~= kept(m, t));
    }
}

/// The four children of an inner node, in order.
pub open spec fn kids(t: QuadNode) -> Seq<QuadNode> {
    match t {
        QuadNode::Root { nw, ne, sw, se, .. } => seq![*nw, *ne, *sw, *se],
        QuadNode::Leaf { .. } => Seq::empty(),
    }
}

/// `a` and `b` have the same nodes with the same boundaries; only the boids
/// held in the leaves may differ.
pub open spec fn same_shape(a: QuadNode, b: QuadNode) -> bool
    decreases a,
{
    match a {
        QuadNode::Leaf { boundary, .. } => b is Leaf && b.boundary() == boundary,
        QuadNode::Root { boundary, nw, ne, sw, se } => match b {
            QuadNode::Root { boundary: b2, nw: n1, ne: n2, sw: n3, se: n4 } => {
                &&& b2 == boundary
                &&& same_shape(*nw, *n1)
                &&& same_shape(*ne, *n2)
                &&& same_shape(*sw, *n3)
                &&& same_shape(*se, *n4)
            },
            QuadNode::Leaf { .. } => false,
        },
    }
}

/// `b` differs from `a` only along the path to `p`: an inner node stays an
/// inner node over the same boundary, a child that does not cover `p` stays
/// as it was, and only the leaf covering `p` may change, or split.
pub open spec fn changed_only_at(a: QuadNode, b: QuadNode, p: Vector2) -> bool
    decreases a,
{
    match a {
        QuadNode::Leaf { .. } => true,
        QuadNode::Root { boundary, nw, ne, sw, se } => match b {
            QuadNode::Root { boundary: b2, nw: n1, ne: n2, sw: n3, se: n4 } => {
                &&& b2 == boundary
                &&& if nw.covers(p) { changed_only_at(*nw, *n1, p) } else { *n1 == *nw }
                &&& if ne.covers(p) { changed_only_at(*ne, *n2, p) } else { *n2 == *ne }
                &&& if sw.covers(p) { changed_only_at(*sw, *n3, p) } else { *n3 == *sw }
                &&& if se.covers(p) { changed_only_at(*se, *n4, p) } else { *n4 == *se }
            },
            QuadNode::Leaf { .. } => false,
        },
    }
}

pub proof fn lemma_same_shape_refl(t: QuadNode)
    ensures
        same_shape(t, t),
    decreases t,
{
    if let QuadNode::Root { nw, ne, sw, se, .. } = t {
        lemma_same_shape_refl(*nw);
        lemma_same_shape_refl(*ne);
        lemma_same_shape_refl(*sw);
        lemma_same_shape_refl(*se);
    }
}

/// `t` is an inner node whose children are leaves over its quadrants.
pub open spec fn four_leaves(t: QuadNode) -> bool {
    &&& t is Root
    &&& forall|k: int|
        0 <= k < 4 ==> (#[trigger] kids(t)[k]) is Leaf && kids(t)[k].boundary() == t.boundary().quadrants()[k]
}

/// The boids of `m` strictly inside quadrant `k` of `r`.
pub open spec fn in_quadrant(m: Multiset<Boid>, r: Region, k: int) -> Multiset<Boid> {
    m.filter(|a: Boid| r.quadrants()[k].contains_point(a.position))
}

/// Splitting `r` once places every boid of `s`: all lie strictly inside `r`
/// and off the two lines through its center, and no quadrant gets more than
/// `cap` of them.
pub open spec fn clean_split(r: Region, s: Seq<Boid>, cap: nat) -> bool {
    &&& forall|i: int|
        0 <= i < s.len() ==> r.contains_point(#[trigger] s[i].position) && s[i].position.x != r.center().x
            && s[i].position.y != r.center().y
    &&& forall|k: int| 0 <= k < 4 ==> (#[trigger] in_quadrant(s.to_multiset(), r, k)).len() <= cap
}

proof fn lemma_shape_four_leaves(a: QuadNode, b: QuadNode)
    requires
        four_leaves(a),
        same_shape(a, b),
    ensures
        four_leaves(b),
        b.boundary() == a.boundary(),
{
    if let QuadNode::Root { nw, ne, sw, se, .. } = a {
        if let QuadNode::Root { nw: n1, ne: n2, sw: n3, se: n4, .. } = b {
            assert(kids(a)[0] == *nw && kids(a)[1] == *ne && kids(a)[2] == *sw && kids(a)[3] == *se);
            assert(kids(b)[0] == *n1 && kids(b)[1] == *n2 && kids(b)[2] == *n3 && kids(b)[3] == *n4);
            assert((*nw) is Leaf && (*ne) is Leaf && (*sw) is Leaf && (*se) is Leaf);
            assert(same_shape(*nw, *n1) && same_shape(*ne, *n2) && same_shape(*sw, *n3) && same_shape(*se, *n4));
            reveal_with_fuel(same_shape, 2);
            assert((*n1) is Leaf && n1.boundary() == nw.boundary());
            assert((*n2) is Leaf && n2.boundary() == ne.boundary());
            assert((*n3) is Leaf && n3.boundary() == sw.boundary());
            assert((*n4) is Leaf && n4.boundary() == se.boundary());
            assert forall|k: int| 0 <= k < 4 implies (#[trigger] kids(b)[k]) is Leaf && kids(b)[k].boundary()
                == b.boundary().quadrants()[k] by {
                assert(kids(a)[k] is Leaf);
            }
        }
    }
}

/// A child of a well-formed inner node holds exactly the node's boids that
/// lie in its quadrant.
proof fn lemma_kid_filter(t: QuadNode, cap: nat, depth: nat, k: int)
    requires
        t is Root,
        t.wf(cap, depth),
        0 <= k < 4,
    ensures
        kids(t)[k].contents().to_multiset() == in_quadrant(t.contents().to_multiset(), t.boundary(), k),
{
    lemma_root_facts(t, cap, depth);
    let quads = t.boundary().quadrants();
    let ks = kids(t);
    assert forall|a: Boid| #[trigger] ks[k].contents().to_multiset().count(a) == in_quadrant(
        t.contents().to_multiset(),
        t.boundary(),
        k,
    ).count(a) by {
        assert forall|j: int| 0 <= j < 4 && (#[trigger] ks[j].contents().to_multiset().count(a)) > 0 implies quads[
            j
        ].contains_point(a.position) by {
            assert(ks[j].covers(a.position));
        }
    }
    assert(ks[k].contents().to_multiset() =~= in_quadrant(t.contents().to_multiset(), t.boundary(), k));
}

/// An inner node of four leaves has room at `p` when the leaf covering `p`
/// holds fewer than `cap` boids.
proof fn lemma_room_via_kid(t: QuadNode, p: Vector2, k: int, cap: nat, depth: nat)
    requires
        four_leaves(t),
        t.wf(cap, depth),
        0 <= k < 4,
        kids(t)[k].covers(p),
        kids(t)[k].contents().len() < cap,
    ensures
        t.room_at(p, cap, depth),
{
    lemma_root_facts(t, cap, depth);
    let quads = t.boundary().quadrants();
    assert(quads[k].contains_point(p));
    assert forall|j: int| 0 <= j < 4 && j != k implies !(#[trigger] kids(t)[j]).covers(p) by {
        if kids(t)[j].covers(p) {
            assert(quads[j].contains_point(p));
        }
    }
    let kid = kids(t)[k];
    assert(kid.room_at(p, cap, (depth - 1) as nat)) by {
        if let QuadNode::Leaf { boids, .. } = kid {
            assert(kid.contents() == boids@);
        }
    }
    if let QuadNode::Root { nw, ne, sw, se, .. } = t {
        assert(kids(t)[0] == *nw && kids(t)[1] == *ne && kids(t)[2] == *sw && kids(t)[3] == *se);
        assert(depth > 0);
        if k == 0 {
            assert(nw.covers(p));
        } else if k == 1 {
            assert(!nw.covers(p) && ne.covers(p));
        } else if k == 2 {
            assert(!nw.covers(p) && !ne.covers(p) && sw.covers(p));
        } else {
            assert(!nw.covers(p) && !ne.covers(p) && !sw.covers(p));
        }
    }
}

/// What inserting `b` into `old` owes when it returns `new` and `ok`.
pub open spec fn insert_post(old: QuadNode, new: QuadNode, b: Boid, ok: bool, cap: nat, depth: nat) -> bool {
    &&& new.wf(cap, depth)
    &&& new.boundary() == old.boundary()
    &&& forall|q: Vector2| #[trigger] new.covers(q) ==> old.covers(q)
    &&& ok == new.covers(b.position)
    &&& !old.covers(b.position) ==> new == old
    &&& old.covers(b.position) && old.room_at(b.position, cap, depth) ==> ok && same_shape(old, new) && forall|
        q: Vector2,
    | #[trigger] new.covers(q) == old.covers(q)
    &&& changed_only_at(old, new, b.position)
    &&& old is Leaf && depth > 0 && old.contents().len() >= cap && clean_split(
        old.boundary(),
        old.contents().push(b),
        cap,
    ) ==> ok && four_leaves(new) && new.contents().to_multiset() == old.contents().to_multiset().insert(b)
    &&& new.contents().to_multiset() == (if ok {
        kept(old.contents().to_multiset(), new).insert(b)
    } else {
        kept(old.contents().to_multiset(), new)
    })
}

proof fn lemma_root_facts(t: QuadNode, cap: nat, depth: nat)
    requires
        t is Root,
        t.wf(cap, depth),
    ensures
        kids(t).len() == 4,
        depth > 0,
        forall|q: Vector2| #[trigger] t.covers(q) == exists|j: int| 0 <= j < 4 && #[trigger] kids(t)[j].covers(q),
        t.contents().to_multiset() == kids(t)[0].contents().to_multiset().add(kids(t)[1].contents().to_multiset()).add(
            kids(t)[2].contents().to_multiset()).add(kids(t)[3].contents().to_multiset()),
        forall|j: int| 0 <= j < 4 ==> (#[trigger] kids(t)[j]).wf(cap, (depth - 1) as nat)
            && kids(t)[j].boundary() == t.boundary().quadrants()[j],
        forall|j: int, q: Vector2| 0 <= j < 4 && #[trigger] kids(t)[j].covers(q)
            ==> t.boundary().quadrants()[j].contains_point(q),
        forall|j: int, a: Boid| 0 <= j < 4 && (#[trigger] kids(t)[j].contents().to_multiset().count(a)) > 0
            ==> kids(t)[j].covers(a.position),
{
    let k = kids(t);
    lemma_root_multiset(t);
    if let QuadNode::Root { nw, ne, sw, se, .. } = t {
        lemma_covers_inside(*nw, cap, (depth - 1) as nat);
        lemma_covers_inside(*ne, cap, (depth - 1) as nat);
        lemma_covers_inside(*sw, cap, (depth - 1) as nat);
        lemma_covers_inside(*se, cap, (depth - 1) as nat);
        lemma_contents_covered(*nw, cap, (depth - 1) as nat);
        lemma_contents_covered(*ne, cap, (depth - 1) as nat);
        lemma_contents_covered(*sw, cap, (depth - 1) as nat);
        lemma_contents_covered(*se, cap, (depth - 1) as nat);
        assert forall|q: Vector2| #[trigger] t.covers(q) == exists|j: int| 0 <= j < 4 && #[trigger] k[j].covers(q) by {
            if t.covers(q) {
                if nw.covers(q) {
                    assert(k[0].covers(q));
                } else if ne.covers(q) {
                    assert(k[1].covers(q));
                } else if sw.covers(q) {
                    assert(k[2].covers(q));
                } else {
                    assert(k[3].covers(q));
                }
            }
        }
        assert(forall|j: int| 0 <= j < 4 ==> (#[trigger] k[j]).boundary() == t.boundary().quadrants()[j]);
    }
}

proof fn lemma_root_multiset(t: QuadNode)
    requires
        t is Root,
    ensures
        t.contents().to_multiset() == kids(t)[0].contents().to_multiset().add(kids(t)[1].contents().to_multiset()).add(
            kids(t)[2].contents().to_multiset()).add(kids(t)[3].contents().to_multiset()),
{
    if let QuadNode::Root { nw, ne, sw, se, .. } = t {
        let (a1, a2, a3, a4) = (nw.contents(), ne.contents(), sw.contents(), se.contents());
        assert(kids(t)[0] == *nw && kids(t)[1] == *ne && kids(t)[2] == *sw && kids(t)[3] == *se);
        assert(t.contents() == a1 + a2 + a3 + a4);
        lemma_multiset_commutative(a1, a2);
        lemma_multiset_commutative(a1 + a2, a3);
        lemma_multiset_commutative(a1 + a2 + a3, a4);
    }
}

/// When child `k` of a well-formed inner node covers `p`, the leaf at `p` is
/// that child's.
proof fn lemma_root_leaf_at(r: QuadNode, k: int, p: Vector2, cap: nat, depth: nat)
    requires
        r is Root,
        r.wf(cap, depth),
        0 <= k < 4,
        kids(r)[k].covers(p),
    ensures
        r.leaf_at(p) == kids(r)[k].leaf_at(p),
{
    lemma_root_facts(r, cap, depth);
    let quads = r.boundary().quadrants();
    assert(quads[k].contains_point(p));
    if let QuadNode::Root { nw, ne, sw, se, .. } = r {
        assert(*nw == kids(r)[0] && *ne == kids(r)[1] && *sw == kids(r)[2] && *se == kids(r)[3]);
        if k != 0 {
            assert(!kids(r)[0].covers(p)) by {
                if kids(r)[0].covers(p) {
                    assert(quads[0].contains_point(p));
                }
            }
        }
        if k != 1 {
            assert(!kids(r)[1].covers(p)) by {
                if kids(r)[1].covers(p) {
                    assert(quads[1].contains_point(p));
                }
            }
        }
        if k != 2 {
            assert(!kids(r)[2].covers(p)) by {
                if kids(r)[2].covers(p) {
                    assert(quads[2].contains_point(p));
                }
            }
        }
    }
}

/// The leaf at a covered point holds it strictly inside.
pub proof fn lemma_leaf_at_contains(t: QuadNode, cap: nat, depth: nat, p: Vector2)
    requires
        t.wf(cap, depth),
        t.covers(p),
    ensures
        t.leaf_at(p).contains_point(p),
    decreases t,
{
    if let QuadNode::Root { nw, ne, sw, se, .. } = t {
        if nw.covers(p) {
            lemma_leaf_at_contains(*nw, cap, (depth - 1) as nat, p);
        } else if ne.covers(p) {
            lemma_leaf_at_contains(*ne, cap, (depth - 1) as nat, p);
        } else if sw.covers(p) {
            lemma_leaf_at_contains(*sw, cap, (depth - 1) as nat, p);
        } else {
            lemma_leaf_at_contains(*se, cap, (depth - 1) as nat, p);
        }
    }
}

/// Replacing child `k` of an inner node by the result of inserting into it,
/// where the quadrant of that child holds the position, gives the inner node
/// the same contract.
proof fn lemma_root_insert(node: QuadNode, r: QuadNode, k: int, b: Boid, ok: bool, cap: nat, depth: nat)
    requires
        node is Root,
        r is Root,
        node.wf(cap, depth),
        r.boundary() == node.boundary(),
        0 <= k < 4,
        kids(r).len() == 4,
        forall|j: int| 0 <= j < 4 && j != k ==> kids(r)[j] == kids(node)[j],
        node.boundary().quadrants()[k].contains_point(b.position),
        insert_post(kids(node)[k], kids(r)[k], b, ok, cap, (depth - 1) as nat),
    ensures
        insert_post(node, r, b, ok, cap, depth),
{
    let p = b.position;
    let quads = node.boundary().quadrants();
    let ko = kids(node);
    let kn = kids(r);
    lemma_root_facts(node, cap, depth);
    lemma_quadrants_inside(node.boundary());
    lemma_contents_covered(kn[k], cap, (depth - 1) as nat);
    lemma_covers_inside(kn[k], cap, (depth - 1) as nat);
    assert(r.wf(cap, depth)) by {
        if let QuadNode::Root { nw, ne, sw, se, .. } = r {
            assert(*nw == kn[0] && *ne == kn[1] && *sw == kn[2] && *se == kn[3]);
        }
    }
    lemma_root_facts(r, cap, depth);
    // the quadrants do not overlap
    assert forall|i: int, j: int, q: Vector2|
        0 <= i < 4 && 0 <= j < 4 && i != j && #[trigger] quads[i].contains_point(q) implies !#[trigger] quads[j].contains_point(q) by {
    }
    assert forall|q: Vector2| #[trigger] r.covers(q) implies node.covers(q) by {
        let j = choose|j: int| 0 <= j < 4 && #[trigger] kn[j].covers(q);
        assert(ko[j].covers(q));
    }
    assert(ok == r.covers(p)) by {
        if r.covers(p) {
            let j = choose|j: int| 0 <= j < 4 && #[trigger] kn[j].covers(p);
            assert(quads[j].contains_point(p));
            assert(j == k);
        }
    }
    if !node.covers(p) {
        assert(!ko[k].covers(p));
        assert(kn =~= ko);
        if let QuadNode::Root { nw, ne, sw, se, .. } = r {
            if let QuadNode::Root { nw: onw, ne: one, sw: osw, se: ose, .. } = node {
                assert(*nw == *onw && *ne == *one && *sw == *osw && *se == *ose);
            }
        }
    }
    if node.covers(p) && node.room_at(p, cap, depth) {
        assert(ko[k].covers(p)) by {
            let j = choose|j: int| 0 <= j < 4 && #[trigger] ko[j].covers(p);
            assert(quads[j].contains_point(p));
        }
        assert(ko[k].room_at(p, cap, (depth - 1) as nat)) by {
            if let QuadNode::Root { nw, ne, sw, se, .. } = node {
                assert(*nw == ko[0] && *ne == ko[1] && *sw == ko[2] && *se == ko[3]);
                if k != 0 {
                    assert(!ko[0].covers(p));
                }
                if k != 1 {
                    assert(!ko[1].covers(p));
                }
                if k != 2 {
                    assert(!ko[2].covers(p));
                }
            }
        }
        assert forall|q: Vector2| #[trigger] r.covers(q) == node.covers(q) by {
            if node.covers(q) {
                let j = choose|j: int| 0 <= j < 4 && #[trigger] ko[j].covers(q);
                assert(kn[j].covers(q));
            }
        }
    }
    let mo = node.contents().to_multiset();
    let target = if ok {
        kept(mo, r).insert(b)
    } else {
        kept(mo, r)
    };
    assert forall|a: Boid| #[trigger] r.contents().to_multiset().count(a) == target.count(a) by {
        let mk = ko[k].contents().to_multiset();
        if mk.count(a) > 0 {
            assert(ko[k].covers(a.position));
            assert(quads[k].contains_point(a.position));
            assert(r.covers(a.position) == kn[k].covers(a.position)) by {
                if r.covers(a.position) {
                    let j = choose|j: int| 0 <= j < 4 && #[trigger] kn[j].covers(a.position);
                    assert(quads[j].contains_point(a.position));
                }
            }
        }
        if ok && a == b {
            assert(quads[k].contains_point(a.position));
        }
        assert forall|j: int| 0 <= j < 4 && j != k && (#[trigger] ko[j].contents().to_multiset().count(a)) > 0 implies r.covers(a.position) by {
            assert(kn[j].covers(a.position));
        }
        if r.covers(a.position) {
            let j = choose|j: int| 0 <= j < 4 && #[trigger] kn[j].covers(a.position);
            if j != k {
                assert(ko[j].covers(a.position));
                assert(!quads[k].contains_point(a.position));
                assert(!ko[k].covers(a.position));
                assert(mk.count(a) == 0);
            }
        }
    }
    assert(r.contents().to_multiset() =~= target);
    if let QuadNode::Root { nw, ne, sw, se, .. } = r {
        if let QuadNode::Root { nw: onw, ne: one, sw: osw, se: ose, .. } = node {
            assert(*nw == kn[0] && *ne == kn[1] && *sw == kn[2] && *se == kn[3]);
            assert(*onw == ko[0] && *one == ko[1] && *osw == ko[2] && *ose == ko[3]);
            if !ko[k].covers(p) {
                assert(kn[k] == ko[k]);
            }
            assert forall|j: int| 0 <= j < 4 && j != k implies !(#[trigger] ko[j]).covers(p) by {
                if ko[j].covers(p) {
                    assert(quads[j].contains_point(p));
                }
            }
            assert(changed_only_at(node, r, p));
            if node.covers(p) && node.room_at(p, cap, depth) {
                lemma_same_shape_refl(ko[0]);
                lemma_same_shape_refl(ko[1]);
                lemma_same_shape_refl(ko[2]);
                lemma_same_shape_refl(ko[3]);
                assert(same_shape(node, r));
            }
        }
    }
}

proof fn lemma_kept_len(m: Multiset<Boid>, t: QuadNode)
    ensures
        kept(m, t).len() <= m.len(),
{
    let rest = m.filter(|a: Boid| !t.covers(a.position));
    assert(m =~= kept(m, t).add(rest));
}

/// Leaf capacity used by `QuadTree::new`.
pub const MAX_BOID_IN_AREA: usize = 401;

/// Subdivision depth used by `QuadTree::new`; a leaf this deep takes boids
/// beyond its capacity rather than splitting again.
pub const MAX_DEPTH: usize = 16;

/// Why a boid could not be stored.
#[derive(Clone, Copy, Debug, PartialEq, Eq, Structural)]
pub enum InsertError {
    /// No leaf holds the position strictly inside its boundary.
    OutOfBounds,
}

/// A spatial index over a fixed boundary: a tree of nodes whose leaves hold
/// at most `capacity` boids each, splitting at most `max_depth` times.
#[derive(Debug)]
pub struct QuadTree {
    pub root: QuadNode,
    pub capacity: usize,
    pub max_depth: usize,
}

impl QuadTree {
    pub open spec fn wf(self) -> bool {
        &&& self.root.wf(self.capacity as nat, self.max_depth as nat)
        &&& self.capacity > 0
        &&& self.contents().len() <= usize::MAX
    }

    pub open spec fn contents(self) -> Seq<Boid> {
        self.root.contents()
    }

    pub open spec fn covers(self, p: Vector2) -> bool {
        self.root.covers(p)
    }

    /// What `insert` of `b` promises of the index `self` it leaves behind,
    /// starting from `old`, with `ok` telling whether it succeeded: the
    /// boundary and settings stay; the covered points only shrink; it succeeds
    /// exactly when the new index covers the position, and changes nothing
    /// when the old one did not; with room in the leaf it succeeds without
    /// splitting; and the boids held are the old ones still covered, plus `b`
    /// on success.
    pub open spec fn inserted_from(self, old: QuadTree, b: Boid, ok: bool) -> bool {
        &&& self.wf()
        &&& self.capacity == old.capacity
        &&& self.max_depth == old.max_depth
        &&& insert_post(old.root, self.root, b, ok, old.capacity as nat, old.max_depth as nat)
    }

    /// An empty index over `boundary` with the default capacity and depth.
    pub fn new(boundary: Region) -> (r: QuadTree)
        requires
            boundary.wf(),
            boundary.is_ordered(),
        ensures
            r.wf(),
            r.root.boundary() == boundary,
            r.root is Leaf,
            r.contents() == Seq::<Boid>::empty(),
            r.capacity == MAX_BOID_IN_AREA,
            r.max_depth == MAX_DEPTH,
    {
        QuadTree::with_capacity(boundary, MAX_BOID_IN_AREA, MAX_DEPTH)
    }

    /// An empty index over `boundary` whose leaves hold `capacity` boids and
    /// split at most `max_depth` times.
    pub fn with_capacity(boundary: Region, capacity: usize, max_depth: usize) -> (r: QuadTree)
        requires
            boundary.wf(),
            boundary.is_ordered(),
            capacity > 0,
        ensures
            r.wf(),
            r.root.boundary() == boundary,
            r.root is Leaf,
            r.contents() == Seq::<Boid>::empty(),
            r.capacity == capacity,
            r.max_depth == max_depth,
    {
        let root = new_leaf(boundary);
        proof {
            assert(root.contents() =~= Seq::<Boid>::empty());
        }
        QuadTree { root, capacity, max_depth }
    }

    /// The number of boids stored.
    pub fn count(&self) -> (r: usize)
        requires
            self.wf(),
        ensures
            r == self.contents().len(),
    {
        self.root.count()
    }

    /// Stores `boid` in the leaf that holds its position strictly inside,
    /// splitting full leaves on the way, and returns that leaf's boundary.
    /// Fails, changing nothing, when the index does not cover the position. A
    /// split may drop boids that lie on the new dividing lines, and may leave
    /// the position itself on one.
    pub fn insert(&mut self, boid: Boid) -> (r: Result<Region, InsertError>)
        requires
            old(self).wf(),
            old(self).contents().len() < usize::MAX,
        ensures
            final(self).inserted_from(*old(self), boid, r is Ok),
            r is Ok ==> r->Ok_0 == final(self).root.leaf_at(boid.position) && r->Ok_0.contains_point(
                boid.position,
            ),
    {
        let mut root = new_leaf(self.root.get_boundary());
        std::mem::swap(&mut root, &mut self.root);
        let (n, ok, leaf) = insert_node(root, boid, self.capacity, self.max_depth);
        proof {
            lemma_kept_len(root.contents().to_multiset(), n);
            vstd::seq_lib::to_multiset_len(root.contents());
            vstd::seq_lib::to_multiset_len(n.contents());
            if ok {
                lemma_leaf_at_contains(n, self.capacity as nat, self.max_depth as nat, boid.position);
            }
        }
        self.root = n;
        if ok {
            Ok(leaf)
        } else {
            Err(InsertError::OutOfBounds)
        }
    }

    /// Some leaf holds `p` strictly inside.
    pub fn covers_point(&self, p: Vector2) -> (r: bool)
        ensures
            r == self.covers(p),
    {
        self.root.covers_point(p)
    }

    /// The boundaries of the leaves, in order.
    pub fn leaf_regions(&self) -> (r: Vec<Region>)
        ensures
            r@ == self.root.leaves(),
    {
        let mut out: Vec<Region> = Vec::new();
        self.root.collect_leaf_regions(&mut out);
        assert(out@ =~= self.root.leaves());
        out
    }

    /// Appends to `found` every stored boid strictly inside `query`.
    pub fn get_all_boids_in_boundry(&self, query: &Region, found: &mut Vec<Boid>)
        requires
            self.wf(),
            query.wf(),
        ensures
            final(found)@ == old(found)@ + in_region(self.contents(), *query),
    {
        proof {
            lemma_wf_holds_inside(self.root, self.capacity as nat, self.max_depth as nat);
        }
        self.root.get_all_boids_in_boundry(query, found);
    }
}

/// When every boid of `s` lies strictly inside `q`, the query keeps them all.
proof fn lemma_all_inside(s: Seq<Boid>, q: Region)
    requires
        forall|i: int| 0 <= i < s.len() ==> q.contains_point(#[trigger] s[i].position),
    ensures
        in_region(s, q) == s,
    decreases s.len(),
{
    reveal(Seq::filter);
    if s.len() > 0 {
        let t = s.drop_last();
        assert forall|i: int| 0 <= i < t.len() implies q.contains_point(#[trigger] t[i].position) by {
            assert(t[i] == s[i]);
        }
        lemma_all_inside(t, q);
        assert(q.contains_point(s[s.len() - 1].position));
        assert(t.push(s.last()) =~= s);
    }
}

/// When no boid of `s` lies strictly inside `q`, the query keeps none.
proof fn lemma_none_inside(s: Seq<Boid>, q: Region)
    requires
        forall|i: int| 0 <= i < s.len() ==> !q.contains_point(#[trigger] s[i].position),
    ensures
        in_region(s, q) == Seq::<Boid>::empty(),
    decreases s.len(),
{
    reveal(Seq::filter);
    if s.len() > 0 {
        let t = s.drop_last();
        assert forall|i: int| 0 <= i < t.len() implies !q.contains_point(#[trigger] t[i].position) by {
            assert(t[i] == s[i]);
        }
        lemma_none_inside(t, q);
        assert(!q.contains_point(s[s.len() - 1].position));
    }
}

/// Every boid held by a well-formed index lies strictly inside its boundary.
pub proof fn lemma_contents_inside_boundary(t: QuadTree)
    requires
        t.wf(),
    ensures
        forall|i: int| 0 <= i < t.contents().len() ==> t.root.boundary().contains_point(
            #[trigger] t.contents()[i].position,
        ),
{
    lemma_contents_covered(t.root, t.capacity as nat, t.max_depth as nat);
    lemma_covers_inside(t.root, t.capacity as nat, t.max_depth as nat);
    assert forall|i: int| 0 <= i < t.contents().len() implies t.root.boundary().contains_point(
        #[trigger] t.contents()[i].position,
    ) by {
        let a = t.contents()[i];
        assert(t.contents().contains(a));
        assert(t.root.covers(a.position));
    }
}

/// A query over a region that holds none of the stored positions strictly
/// inside returns nothing.
pub proof fn lemma_query_disjoint(t: QuadTree, q: Region)
    requires
        forall|i: int| 0 <= i < t.contents().len() ==> !q.contains_point(#[trigger] t.contents()[i].position),
    ensures
        in_region(t.contents(), q) == Seq::<Boid>::empty(),
{
    lemma_none_inside(t.contents(), q);
}

/// The index before the `i`-th of a run of insertions into `t0`.
pub open spec fn before_insert(t0: QuadTree, trees: Seq<QuadTree>, i: int) -> QuadTree {
    if i == 0 {
        t0
    } else {
        trees[i - 1]
    }
}

proof fn lemma_fill_prefix(t0: QuadTree, trees: Seq<QuadTree>, bs: Seq<Boid>, oks: Seq<bool>, k: int)
    requires
        t0.wf(),
        t0.root is Leaf,
        t0.contents().len() == 0,
        bs.len() <= t0.capacity,
        forall|i: int| 0 <= i < bs.len() ==> t0.root.boundary().contains_point(#[trigger] bs[i].position),
        trees.len() == bs.len(),
        oks.len() == bs.len(),
        forall|i: int|
            0 <= i < bs.len() ==> (#[trigger] trees[i]).inserted_from(before_insert(t0, trees, i), bs[i], oks[i]),
        0 <= k < bs.len(),
    ensures
        oks[k],
        trees[k].root is Leaf,
        trees[k].capacity == t0.capacity,
        forall|q: Vector2| #[trigger] trees[k].covers(q) == t0.covers(q),
        trees[k].contents().to_multiset() == bs.take(k + 1).to_multiset(),
        trees[k].contents().len() == k + 1,
    decreases k,
{
    let prev = before_insert(t0, trees, k);
    let t = trees[k];
    let b = bs[k];
    assert(t.inserted_from(prev, b, oks[k]));
    if k == 0 {
        assert(prev.contents() =~= Seq::<Boid>::empty());
        assert(bs.take(0) =~= Seq::<Boid>::empty());
    } else {
        lemma_fill_prefix(t0, trees, bs, oks, k - 1);
    }
    assert(prev.contents().to_multiset() == bs.take(k).to_multiset());
    assert(prev.contents().len() == k);
    assert(prev.root.room_at(b.position, prev.capacity as nat, prev.max_depth as nat));
    assert(prev.covers(b.position));
    lemma_kept_all(prev.root, prev.capacity as nat, prev.max_depth as nat);
    lemma_kept_same_cover(prev.contents().to_multiset(), prev.root, t.root);
    assert(bs.take(k + 1) =~= bs.take(k).push(b));
    assert forall|q: Vector2| #[trigger] t.covers(q) == t0.covers(q) by {
        assert(t.root.covers(q) == prev.root.covers(q));
        assert(prev.covers(q) == t0.covers(q));
    }
    vstd::seq_lib::to_multiset_len(t.contents());
    vstd::seq_lib::to_multiset_len(bs.take(k + 1));
}

/// Inserting into a fresh index no more boids than a leaf holds, all strictly
/// inside its boundary, succeeds every time and stores them all; a query over
/// the whole boundary then returns exactly that many.
pub proof fn lemma_fill_below_capacity(t0: QuadTree, trees: Seq<QuadTree>, bs: Seq<Boid>, oks: Seq<bool>)
    requires
        t0.wf(),
        t0.root is Leaf,
        t0.contents().len() == 0,
        bs.len() <= t0.capacity,
        forall|i: int| 0 <= i < bs.len() ==> t0.root.boundary().contains_point(#[trigger] bs[i].position),
        trees.len() == bs.len(),
        oks.len() == bs.len(),
        forall|i: int|
            0 <= i < bs.len() ==> (#[trigger] trees[i]).inserted_from(before_insert(t0, trees, i), bs[i], oks[i]),
    ensures
        forall|i: int| 0 <= i < bs.len() ==> oks[i],
        bs.len() > 0 ==> trees.last().contents().to_multiset() == bs.to_multiset(),
        bs.len() > 0 ==> in_region(trees.last().contents(), t0.root.boundary()).len() == bs.len(),
{
    assert forall|i: int| 0 <= i < bs.len() implies oks[i] by {
        lemma_fill_prefix(t0, trees, bs, oks, i);
    }
    if bs.len() > 0 {
        let k = bs.len() - 1;
        lemma_fill_prefix(t0, trees, bs, oks, k);
        assert(bs.take(k + 1) =~= bs);
        let t = trees[k];
        lemma_contents_inside_boundary(t);
        assert(t.root.boundary() == t0.root.boundary()) by {
            lemma_fill_boundary(t0, trees, bs, oks, k);
        }
        lemma_all_inside(t.contents(), t0.root.boundary());
    }
}

proof fn lemma_fill_boundary(t0: QuadTree, trees: Seq<QuadTree>, bs: Seq<Boid>, oks: Seq<bool>, k: int)
    requires
        trees.len() == bs.len(),
        oks.len() == bs.len(),
        forall|i: int|
            0 <= i < bs.len() ==> (#[trigger] trees[i]).inserted_from(before_insert(t0, trees, i), bs[i], oks[i]),
        0 <= k < bs.len(),
    ensures
        trees[k].root.boundary() == t0.root.boundary(),
    decreases k,
{
    assert(trees[k].inserted_from(before_insert(t0, trees, k), bs[k], oks[k]));
    if k > 0 {
        lemma_fill_boundary(t0, trees, bs, oks, k - 1);
    }
}

/// An insertion adds at most one boid, and only `b` is new.
pub proof fn lemma_inserted_contents(t: QuadTree, old: QuadTree, b: Boid, ok: bool)
    requires
        t.inserted_from(old, b, ok),
    ensures
        t.contents().len() <= old.contents().len() + 1,
        forall|a: Boid| #[trigger] t.contents().contains(a) ==> old.contents().contains(a) || a == b,
{
    let mo = old.contents().to_multiset();
    lemma_kept_len(mo, t.root);
    vstd::seq_lib::to_multiset_len(old.contents());
    vstd::seq_lib::to_multiset_len(t.contents());
    assert forall|a: Boid| #[trigger] t.contents().contains(a) implies old.contents().contains(a) || a == b by {
        assert(t.contents().to_multiset().count(a) > 0);
        if a != b {
            assert(kept(mo, t.root).count(a) > 0);
        }
    }
}

/// The index of the quadrant of `r` on whose side of the center `q` lies.
pub open spec fn quadrant_of(r: Region, q: Vector2) -> int {
    let c = r.center();
    if q.x < c.x {
        if q.y < c.y {
            0
        } else {
            2
        }
    } else {
        if q.y < c.y {
            1
        } else {
            3
        }
    }
}

/// `q` lies on a line through the center of `r`, or of the quadrant holding
/// it, and so on for `depth` levels of splitting.
pub open spec fn on_grid(r: Region, q: Vector2, depth: nat) -> bool
    decreases depth,
{
    if depth == 0 {
        false
    } else {
        q.x == r.center().x || q.y == r.center().y || on_grid(
            r.quadrants()[quadrant_of(r, q)],
            q,
            (depth - 1) as nat,
        )
    }
}

/// A well-formed node covers every point strictly inside its boundary that
/// lies on no dividing line down to its depth.
pub proof fn lemma_covers_off_grid(t: QuadNode, cap: nat, depth: nat, q: Vector2)
    requires
        t.wf(cap, depth),
        t.boundary().contains_point(q),
        !on_grid(t.boundary(), q, depth),
    ensures
        t.covers(q),
    decreases t,
{
    if let QuadNode::Root { boundary, nw, ne, sw, se } = t {
        lemma_quadrants_inside(boundary);
        let k = quadrant_of(boundary, q);
        let quads = boundary.quadrants();
        assert(quads[k].contains_point(q));
        if k == 0 {
            lemma_covers_off_grid(*nw, cap, (depth - 1) as nat, q);
        } else if k == 1 {
            lemma_covers_off_grid(*ne, cap, (depth - 1) as nat, q);
        } else if k == 2 {
            lemma_covers_off_grid(*sw, cap, (depth - 1) as nat, q);
        } else {
            lemma_covers_off_grid(*se, cap, (depth - 1) as nat, q);
        }
    }
}

proof fn lemma_fill_off_grid_prefix(t0: QuadTree, trees: Seq<QuadTree>, bs: Seq<Boid>, oks: Seq<bool>, k: int)
    requires
        t0.wf(),
        t0.contents().len() == 0,
        forall|i: int|
            0 <= i < bs.len() ==> t0.root.boundary().contains_point(#[trigger] bs[i].position) && !on_grid(
                t0.root.boundary(),
                bs[i].position,
                t0.max_depth as nat,
            ),
        trees.len() == bs.len(),
        oks.len() == bs.len(),
        forall|i: int|
            0 <= i < bs.len() ==> (#[trigger] trees[i]).inserted_from(before_insert(t0, trees, i), bs[i], oks[i]),
        0 <= k < bs.len(),
    ensures
        oks[k],
        trees[k].capacity == t0.capacity,
        trees[k].max_depth == t0.max_depth,
        trees[k].root.boundary() == t0.root.boundary(),
        trees[k].contents().to_multiset() == bs.take(k + 1).to_multiset(),
    decreases k,
{
    let prev = before_insert(t0, trees, k);
    let t = trees[k];
    let b = bs[k];
    let bound = t0.root.boundary();
    assert(t.inserted_from(prev, b, oks[k]));
    if k == 0 {
        assert(prev.contents() =~= Seq::<Boid>::empty());
        assert(bs.take(0) =~= Seq::<Boid>::empty());
    } else {
        lemma_fill_off_grid_prefix(t0, trees, bs, oks, k - 1);
    }
    let mo = prev.contents().to_multiset();
    assert(mo == bs.take(k).to_multiset());
    lemma_covers_off_grid(t.root, t.capacity as nat, t.max_depth as nat, b.position);
    assert(kept(mo, t.root) =~= mo) by {
        assert forall|a: Boid| mo.count(a) > 0 implies t.root.covers(a.position) by {
            assert(bs.take(k).contains(a));
            let j = choose|j: int| 0 <= j < bs.take(k).len() && bs.take(k)[j] == a;
            assert(bs[j] == a);
            lemma_covers_off_grid(t.root, t.capacity as nat, t.max_depth as nat, a.position);
        }
    }
    assert(bs.take(k + 1) =~= bs.take(k).push(b));
}

/// Inserting into a fresh index boids that lie strictly inside its boundary
/// and on no dividing line down to its maximum depth succeeds every time and
/// stores them all, however many splits that takes; a query over the whole
/// boundary then returns every one of them. With a maximum depth of one, the
/// dividing lines are the two lines through the center of the boundary.
pub proof fn lemma_fill_off_grid(t0: QuadTree, trees: Seq<QuadTree>, bs: Seq<Boid>, oks: Seq<bool>)
    requires
        t0.wf(),
        t0.contents().len() == 0,
        forall|i: int|
            0 <= i < bs.len() ==> t0.root.boundary().contains_point(#[trigger] bs[i].position) && !on_grid(
                t0.root.boundary(),
                bs[i].position,
                t0.max_depth as nat,
            ),
        trees.len() == bs.len(),
        oks.len() == bs.len(),
        forall|i: int|
            0 <= i < bs.len() ==> (#[trigger] trees[i]).inserted_from(before_insert(t0, trees, i), bs[i], oks[i]),
    ensures
        forall|i: int| 0 <= i < bs.len() ==> oks[i],
        bs.len() > 0 ==> trees.last().contents().to_multiset() == bs.to_multiset(),
        bs.len() > 0 ==> in_region(trees.last().contents(), t0.root.boundary()).len() == bs.len(),
{
    assert forall|i: int| 0 <= i < bs.len() implies oks[i] by {
        lemma_fill_off_grid_prefix(t0, trees, bs, oks, i);
    }
    if bs.len() > 0 {
        let k = bs.len() - 1;
        lemma_fill_off_grid_prefix(t0, trees, bs, oks, k);
        assert(bs.take(k + 1) =~= bs);
        let t = trees[k];
        lemma_contents_inside_boundary(t);
        lemma_all_inside(t.contents(), t0.root.boundary());
        vstd::seq_lib::to_multiset_len(t.contents());
        vstd::seq_lib::to_multiset_len(bs);
    }
}

/// Inserting one more boid into an index whose root is a full leaf, when the
/// old boids and the new one lie strictly inside the boundary, off the two
/// lines through its center, and no quadrant gets more than the capacity (so
/// with capacity C and C + 1 boids, at least two quadrants are used), splits
/// the root exactly once: it succeeds, the root becomes four leaves over its
/// quadrants, every boid is kept, and a query over the whole boundary returns
/// all C + 1 of them.
pub proof fn lemma_one_split(t: QuadTree, t2: QuadTree, b: Boid, ok: bool)
    requires
        t.wf(),
        t.root is Leaf,
        t.max_depth > 0,
        t.contents().len() == t.capacity,
        clean_split(t.root.boundary(), t.contents().push(b), t.capacity as nat),
        t2.inserted_from(t, b, ok),
    ensures
        ok,
        four_leaves(t2.root),
        t2.root.boundary() == t.root.boundary(),
        t2.contents().to_multiset() == t.contents().to_multiset().insert(b),
        in_region(t2.contents(), t.root.boundary()).len() == t.capacity + 1,
{
    lemma_contents_inside_boundary(t2);
    lemma_all_inside(t2.contents(), t.root.boundary());
    vstd::seq_lib::to_multiset_len(t2.contents());
    vstd::seq_lib::to_multiset_len(t.contents());
}

} // verus!
