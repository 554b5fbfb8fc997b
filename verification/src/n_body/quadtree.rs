use vstd::prelude::*;
use crate::n_body::seq_facts::{lemma_insert_append_left, lemma_insert_append_right};
use crate::n_body::span::{lemma_parts_split, lemma_shared_meets, Span};

verus! {

/// A position on the integer grid that the quadtree indexes.
#[derive(Clone, Copy, Debug, PartialEq, Eq)]
pub struct Point2 {
    pub x: i64,
    pub y: i64,
}

impl Point2 {
    pub fn new(x: i64, y: i64) -> (p: Point2)
        ensures
            p.x == x,
            p.y == y,
    {
        Point2 { x, y }
    }
}

/// A rectangular cell, given by its span on each axis. `Node::new` makes the square of a
/// given side around a centre; dividing a cell makes rectangles that split it exactly.
#[derive(Clone, Copy, Debug)]
pub struct Node {
    pub x: Span,
    pub y: Span,
}

impl Node {
    /// The cell covers `p`: its lower borders belong to it, its upper borders do not.
    pub open spec fn covers(self, p: Point2) -> bool {
        self.x.holds(p.x) && self.y.holds(p.y)
    }

    /// The closed rectangle of the node holds `p`: a query range reaches the points on its
    /// border.
    pub open spec fn encloses(self, p: Point2) -> bool {
        self.x.reaches(p.x) && self.y.reaches(p.y)
    }

    /// The closed rectangles of the node and of `range` overlap.
    pub open spec fn meets(self, range: Node) -> bool {
        self.x.meets(range.x) && self.y.meets(range.y)
    }

    /// Both spans are in order and within the bound.
    pub open spec fn bounded(self) -> bool {
        self.x.bounded() && self.y.bounded()
    }

    /// The `k`-th quadrant of the cell (0 <= k < 4): 0 north-west, 1 north-east,
    /// 2 south-west, 3 south-east. Bit 0 of `k` takes the upper part in x, bit 1 in y.
    pub open spec fn quadrant(self, k: int) -> Node {
        Node { x: self.x.part(k % 2 == 1), y: self.y.part(k / 2 == 1) }
    }

    /// The quadrant that holds `p`, if the cell covers it.
    pub open spec fn quadrant_index(self, p: Point2) -> int {
        (if self.x.upper().holds(p.x) { 1int } else { 0int }) + (if self.y.upper().holds(p.y) {
            2int
        } else {
            0int
        })
    }

    /// The square of side `size` centred on `pos`.
    pub open spec fn square(pos: Point2, size: u64) -> Node {
        Node { x: Span::centred(pos.x, size), y: Span::centred(pos.y, size) }
    }

    /// The square of side `size` centred on `pos`.
    pub fn new(pos: Point2, size: u64) -> (n: Node)
        ensures
            n == Node::square(pos, size),
            n.bounded(),
            forall|p: Point2| #[trigger] n.covers(p) <==> {
                &&& 2 * pos.x - size <= 2 * p.x < 2 * pos.x + size
                &&& 2 * pos.y - size <= 2 * p.y < 2 * pos.y + size
            },
            forall|p: Point2| #[trigger] n.encloses(p) <==> {
                &&& 2 * pos.x - size <= 2 * p.x <= 2 * pos.x + size
                &&& 2 * pos.y - size <= 2 * p.y <= 2 * pos.y + size
            },
    {
        Node { x: Span::new_centred(pos.x, size), y: Span::new_centred(pos.y, size) }
    }

    pub fn contains(&self, body: &Point2) -> (r: bool)
        requires
            self.bounded(),
        ensures
            r == self.covers(*body),
    {
        self.x.holds_exec(body.x) && self.y.holds_exec(body.y)
    }

    /// Whether the closed rectangle of the node holds `body`.
    pub fn reaches(&self, body: &Point2) -> (r: bool)
        requires
            self.bounded(),
        ensures
            r == self.encloses(*body),
    {
        self.x.reaches_exec(body.x) && self.y.reaches_exec(body.y)
    }
}

/// A cell's quadrants split it exactly: a point lies in the cell exactly when it lies in a
/// quadrant, and then only in the one `quadrant_index` names; every quadrant lies inside the
/// cell and is bounded.
pub proof fn lemma_quadrants_split(n: Node, p: Point2)
    requires
        n.bounded(),
    ensures
        n.covers(p) <==> exists|k: int| 0 <= k < 4 && (#[trigger] n.quadrant(k)).covers(p),
        n.covers(p) ==> 0 <= n.quadrant_index(p) < 4 && n.quadrant(n.quadrant_index(p)).covers(p),
        forall|k: int| 0 <= k < 4 && k != n.quadrant_index(p) ==> !(#[trigger] n.quadrant(k)).covers(p),
        forall|k: int| 0 <= k < 4 ==> (#[trigger] n.quadrant(k)).bounded(),
{
    lemma_parts_split(n.x, p.x);
    lemma_parts_split(n.y, p.y);
    if n.covers(p) {
        assert(n.quadrant(n.quadrant_index(p)).covers(p));
    }
}

/// A point that the closed rectangles of two nodes both hold shows that the nodes meet.
pub proof fn lemma_shared_point_meets(a: Node, b: Node, p: Point2)
    requires
        a.encloses(p),
        b.encloses(p),
    ensures
        a.meets(b),
        b.meets(a),
{
    lemma_shared_meets(a.x, b.x, p.x);
    lemma_shared_meets(a.y, b.y, p.y);
}

/// A region quadtree over grid points: each cell keeps up to `capacity` points itself and,
/// once full, hands further points to its four quadrants.
pub struct QuadTree {
    pub boundary: Node,
    pub capacity: usize,
    pub bodies: Vec<Point2>,
    pub divided: bool,
    pub nw: Option<Box<QuadTree>>,
    pub ne: Option<Box<QuadTree>>,
    pub sw: Option<Box<QuadTree>>,
    pub se: Option<Box<QuadTree>>,
}

/// The points held by an optional subtree, in storage order.
pub open spec fn opt_elems(t: Option<Box<QuadTree>>) -> Seq<Point2>
    decreases t,
{
    match t {
        Some(c) => c.elems(),
        None => Seq::empty(),
    }
}

/// How many levels of division an optional subtree has.
pub open spec fn opt_depth(t: Option<Box<QuadTree>>) -> nat
    decreases t,
{
    match t {
        Some(c) => c.depth(),
        None => 0,
    }
}

/// The subtree exists, is well formed, and is a tree on `cell` with `capacity`.
pub open spec fn child_wf(t: Option<Box<QuadTree>>, cell: Node, capacity: usize) -> bool
    decreases t,
{
    match t {
        Some(c) => c.boundary == cell && c.capacity == capacity && c.wf(),
        None => false,
    }
}

/// The subtree exists and is a tree on `cell` with `capacity` that holds just `pts` itself
/// and has not divided.
pub open spec fn child_leaf(
    t: Option<Box<QuadTree>>,
    cell: Node,
    capacity: usize,
    pts: Seq<Point2>,
) -> bool {
    match t {
        Some(c) => c.is_leaf(cell, capacity, pts),
        None => false,
    }
}

/// Where `insert` puts `p` among the points of the optional subtree.
pub open spec fn opt_insert_index(t: Option<Box<QuadTree>>, p: Point2) -> int
    decreases t,
{
    match t {
        Some(c) => c.insert_index(p),
        None => 0,
    }
}

/// The `k`-th quadrant after an insertion of `p` into a full cell: for a cell that had
/// divided, the quadrant that covers `p` has had `p` inserted and the others are as they
/// were; for a cell that had not, every quadrant is new and holds only `p` if it covers it.
pub open spec fn quadrant_after(
    was_divided: bool,
    before: Option<Box<QuadTree>>,
    after: Option<Box<QuadTree>>,
    cell: Node,
    capacity: usize,
    target: bool,
    p: Point2,
) -> bool
    decreases before,
{
    if was_divided {
        if target {
            match (before, after) {
                (Some(b), Some(a)) => b.inserted(*a, p),
                _ => false,
            }
        } else {
            after == before
        }
    } else {
        child_leaf(after, cell, capacity, if target { seq![p] } else { Seq::empty() })
    }
}

/// The points of `s` that `range` reaches, in order.
pub open spec fn in_range(s: Seq<Point2>, range: Node) -> Seq<Point2> {
    s.filter(|p: Point2| range.encloses(p))
}

impl QuadTree {
    /// All points stored in the tree: this cell's own, then those of the north-west,
    /// north-east, south-west and south-east quadrants.
    pub open spec fn elems(self) -> Seq<Point2>
        decreases self,
    {
        self.bodies@ + opt_elems(self.nw) + opt_elems(self.ne) + opt_elems(self.sw) + opt_elems(
            self.se,
        )
    }

    /// How many levels of division the tree has.
    pub open spec fn depth(self) -> nat
        decreases self,
    {
        if self.nw is None && self.ne is None && self.sw is None && self.se is None {
            0
        } else {
            let a = opt_depth(self.nw);
            let b = opt_depth(self.ne);
            let c = opt_depth(self.sw);
            let d = opt_depth(self.se);
            let ab = if a >= b { a } else { b };
            let cd = if c >= d { c } else { d };
            (if ab >= cd { ab } else { cd }) + 1
        }
    }

    /// 1 when the cell itself has no room left, else 0.
    pub open spec fn full(self) -> nat {
        if self.bodies@.len() >= self.capacity { 1 } else { 0 }
    }

    /// The tree's invariant: the cell is bounded, no cell holds more than `capacity` points
    /// itself, every point of a subtree lies in that subtree's cell, and a cell has divided
    /// only when full, its four quadrants then being its children.
    pub open spec fn wf(self) -> bool
        decreases self,
    {
        &&& self.boundary.bounded()
        &&& self.bodies@.len() <= self.capacity
        &&& forall|i: int| 0 <= i < self.elems().len() ==> self.boundary.covers(#[trigger] self.elems()[i])
        &&& if self.divided {
            &&& self.bodies@.len() == self.capacity
            &&& child_wf(self.nw, self.boundary.quadrant(0), self.capacity)
            &&& child_wf(self.ne, self.boundary.quadrant(1), self.capacity)
            &&& child_wf(self.sw, self.boundary.quadrant(2), self.capacity)
            &&& child_wf(self.se, self.boundary.quadrant(3), self.capacity)
        } else {
            &&& self.nw is None
            &&& self.ne is None
            &&& self.sw is None
            &&& self.se is None
        }
    }

    /// A tree on `boundary` with `capacity` that holds just `pts` itself and has not divided.
    pub open spec fn is_leaf(self, boundary: Node, capacity: usize, pts: Seq<Point2>) -> bool {
        &&& self.boundary == boundary
        &&& self.capacity == capacity
        &&& self.bodies@ == pts
        &&& !self.divided
        &&& self.nw is None
        &&& self.ne is None
        &&& self.sw is None
        &&& self.se is None
    }

    /// `after` is this tree with `p` inserted. A point outside the cell, or any point when
    /// the capacity is 0, leaves the tree as it was. A cell with room keeps `p` itself.
    /// A full cell keeps its own points and is divided (into new, empty quadrants if it had
    /// not divided), and `p` is inserted into the quadrant that covers it; the other
    /// quadrants are unchanged.
    pub open spec fn inserted(self, after: QuadTree, p: Point2) -> bool
        decreases self,
    {
        if !self.boundary.covers(p) || self.capacity == 0 {
            after == self
        } else if self.bodies@.len() < self.capacity {
            &&& after.boundary == self.boundary
            &&& after.capacity == self.capacity
            &&& after.bodies@ == self.bodies@.push(p)
            &&& after.divided == self.divided
            &&& after.nw == self.nw
            &&& after.ne == self.ne
            &&& after.sw == self.sw
            &&& after.se == self.se
        } else {
            let k = self.boundary.quadrant_index(p);
            &&& after.boundary == self.boundary
            &&& after.capacity == self.capacity
            &&& after.bodies@ == self.bodies@
            &&& after.divided
            &&& quadrant_after(self.divided, self.nw, after.nw, self.boundary.quadrant(0), self.capacity, k == 0, p)
            &&& quadrant_after(self.divided, self.ne, after.ne, self.boundary.quadrant(1), self.capacity, k == 1, p)
            &&& quadrant_after(self.divided, self.sw, after.sw, self.boundary.quadrant(2), self.capacity, k == 2, p)
            &&& quadrant_after(self.divided, self.se, after.se, self.boundary.quadrant(3), self.capacity, k == 3, p)
        }
    }

    /// Where `insert` puts `p` among the stored points (see `elems`): after this cell's own
    /// points while the cell has room, else at its place in the quadrant that covers it.
    pub open spec fn insert_index(self, p: Point2) -> int
        decreases self,
    {
        let b = self.bodies@.len() as int;
        let n = opt_elems(self.nw).len() as int;
        let e = opt_elems(self.ne).len() as int;
        let w = opt_elems(self.sw).len() as int;
        let k = self.boundary.quadrant_index(p);
        if self.bodies@.len() < self.capacity {
            b
        } else if k == 0 {
            b + opt_insert_index(self.nw, p)
        } else if k == 1 {
            b + n + opt_insert_index(self.ne, p)
        } else if k == 2 {
            b + n + e + opt_insert_index(self.sw, p)
        } else {
            b + n + e + w + opt_insert_index(self.se, p)
        }
    }

    pub fn new(boundary: Node, capacity: usize) -> (t: QuadTree)
        ensures
            t.is_leaf(boundary, capacity, Seq::empty()),
            t.elems() == Seq::<Point2>::empty(),
            boundary.bounded() ==> t.wf(),
    {
        let t = QuadTree {
            boundary,
            capacity,
            bodies: Vec::new(),
            divided: false,
            nw: None,
            ne: None,
            sw: None,
            se: None,
        };
        assert(t.elems() =~= Seq::<Point2>::empty());
        t
    }

    /// Makes the four quadrants of the cell its children, each empty, and marks it divided.
    /// Points already held by former children are dropped with them.
    pub fn subdivide(&mut self)
        requires
            old(self).boundary.bounded(),
        ensures
            final(self).boundary == old(self).boundary,
            final(self).capacity == old(self).capacity,
            final(self).bodies@ == old(self).bodies@,
            final(self).divided,
            child_leaf(final(self).nw, old(self).boundary.quadrant(0), old(self).capacity, Seq::empty()),
            child_leaf(final(self).ne, old(self).boundary.quadrant(1), old(self).capacity, Seq::empty()),
            child_leaf(final(self).sw, old(self).boundary.quadrant(2), old(self).capacity, Seq::empty()),
            child_leaf(final(self).se, old(self).boundary.quadrant(3), old(self).capacity, Seq::empty()),
            final(self).elems() == old(self).bodies@,
            old(self).wf() && old(self).bodies@.len() == old(self).capacity ==> final(self).wf(),
    {
        let ghost old_elems = self.elems();
        proof {
            lemma_quadrants_split(self.boundary, Point2 { x: 0, y: 0 });
        }
        let (xl, xu) = self.boundary.x.split();
        let (yl, yu) = self.boundary.y.split();
        self.nw = Some(Box::new(QuadTree::new(Node { x: xl, y: yl }, self.capacity)));
        self.ne = Some(Box::new(QuadTree::new(Node { x: xu, y: yl }, self.capacity)));
        self.sw = Some(Box::new(QuadTree::new(Node { x: xl, y: yu }, self.capacity)));
        self.se = Some(Box::new(QuadTree::new(Node { x: xu, y: yu }, self.capacity)));
        self.divided = true;
        assert(self.elems() =~= self.bodies@);
        proof {
            if old(self).wf() {
                assert forall|i: int| 0 <= i < self.elems().len() implies self.boundary.covers(
                    #[trigger] self.elems()[i],
                ) by {
                    assert(old_elems[i] == self.bodies@[i]);
                }
            }
        }
    }

    /// Stores `body` if the cell covers it and the capacity is not 0: in this cell while it
    /// has room, else (dividing the cell first if it has not divided) in the quadrant that
    /// covers it, the quadrants being offered `body` in the order north-west, north-east,
    /// south-west, south-east. Returns whether it was stored; a refused point leaves the
    /// tree as it was.
    pub fn insert(&mut self, body: Point2) -> (res: bool)
        requires
            old(self).wf(),
        ensures
            final(self).wf(),
            res == (old(self).boundary.covers(body) && old(self).capacity > 0),
            old(self).inserted(*final(self), body),
            res ==> 0 <= old(self).insert_index(body) <= old(self).elems().len()
                && final(self).elems() == old(self).elems().insert(
                old(self).insert_index(body),
                body,
            ),
            !res ==> *final(self) == *old(self),
        decreases old(self).depth(), old(self).full(), 1nat,
    {
        if !self.boundary.contains(&body) || self.capacity == 0 {
            return false;
        }
        if self.bodies.len() < self.capacity {
            let ghost old_elems = self.elems();
            let ghost nb = self.bodies@.len();
            self.bodies.push(body);
            proof {
                assert(self.elems() =~= old_elems.insert(nb as int, body));
                lemma_insert_covered(old_elems, nb as int, body, self.boundary);
            }
            return true;
        }
        let ghost before = *self;
        if !self.divided {
            self.subdivide();
        }
        self.insert_into_quadrants(body, Ghost(before))
    }

    /// Offers `body` to the quadrants of a full cell, in order, until one takes it. `before`
    /// is the cell as it was before it was divided for this insertion (or the cell itself,
    /// if it had divided already).
    fn insert_into_quadrants(&mut self, body: Point2, Ghost(before): Ghost<QuadTree>) -> (res: bool)
        requires
            before.wf(),
            before.boundary.covers(body),
            before.capacity > 0,
            before.bodies@.len() >= before.capacity,
            old(self).divided,
            old(self).boundary == before.boundary,
            old(self).capacity == before.capacity,
            old(self).bodies@ == before.bodies@,
            before.divided ==> *old(self) == before,
            !before.divided ==> {
                &&& child_leaf(old(self).nw, before.boundary.quadrant(0), before.capacity, Seq::empty())
                &&& child_leaf(old(self).ne, before.boundary.quadrant(1), before.capacity, Seq::empty())
                &&& child_leaf(old(self).sw, before.boundary.quadrant(2), before.capacity, Seq::empty())
                &&& child_leaf(old(self).se, before.boundary.quadrant(3), before.capacity, Seq::empty())
            },
            old(self).wf(),
        ensures
            res,
            final(self).wf(),
            before.inserted(*final(self), body),
            0 <= before.insert_index(body) <= before.elems().len(),
            final(self).elems() == before.elems().insert(before.insert_index(body), body),
        decreases before.depth(), before.full(), 0nat,
    {
        let ghost mid = *self;
        let ghost k = before.boundary.quadrant_index(body);
        let ghost b = mid.bodies@;
        let ghost n = opt_elems(mid.nw);
        let ghost e = opt_elems(mid.ne);
        let ghost w = opt_elems(mid.sw);
        let ghost s = opt_elems(mid.se);
        proof {
            lemma_quadrants_split(before.boundary, body);
            if !before.divided {
                lemma_leaf_facts(mid.nw, body);
                lemma_leaf_facts(mid.ne, body);
                lemma_leaf_facts(mid.sw, body);
                lemma_leaf_facts(mid.se, body);
                assert(before.elems() =~= before.bodies@);
            }
            assert(mid.elems() == before.elems());
        }
        if Self::insert_into(&mut self.nw, body) {
            proof {
                let j: int = opt_insert_index(mid.nw, body);
                lemma_after_leaf(before.divided, mid.nw, self.nw, body);
                lemma_insert_append_right(b, n, j, body);
                lemma_insert_append_left(b + n, e, b.len() + j, body);
                lemma_insert_append_left(b + n + e, w, b.len() + j, body);
                lemma_insert_append_left(b + n + e + w, s, b.len() + j, body);
                lemma_insert_covered(mid.elems(), b.len() + j, body, self.boundary);
            }
            return true;
        }
        if Self::insert_into(&mut self.ne, body) {
            proof {
                let j: int = opt_insert_index(mid.ne, body);
                lemma_after_leaf(before.divided, mid.ne, self.ne, body);
                lemma_insert_append_right(b + n, e, j, body);
                lemma_insert_append_left(b + n + e, w, b.len() + n.len() + j, body);
                lemma_insert_append_left(b + n + e + w, s, b.len() + n.len() + j, body);
                lemma_insert_covered(mid.elems(), b.len() + n.len() + j, body, self.boundary);
            }
            return true;
        }
        if Self::insert_into(&mut self.sw, body) {
            proof {
                let j: int = opt_insert_index(mid.sw, body);
                lemma_after_leaf(before.divided, mid.sw, self.sw, body);
                lemma_insert_append_right(b + n + e, w, j, body);
                lemma_insert_append_left(b + n + e + w, s, b.len() + n.len() + e.len() + j, body);
                lemma_insert_covered(mid.elems(), b.len() + n.len() + e.len() + j, body, self.boundary);
            }
            return true;
        }
        let r = Self::insert_into(&mut self.se, body);
        proof {
            let j: int = opt_insert_index(mid.se, body);
            lemma_after_leaf(before.divided, mid.se, self.se, body);
            lemma_insert_append_right(b + n + e + w, s, j, body);
            lemma_insert_covered(mid.elems(), b.len() + n.len() + e.len() + w.len() + j, body, self.boundary);
        }
        r
    }

    /// Appends to `found`, in storage order, every stored point that `range` reaches (its
    /// borders included). Cells that do not meet `range` are skipped; none of their points
    /// could be in it.
    pub fn query(&self, range: &Node, found: &mut Vec<Point2>)
        requires
            self.wf(),
            range.bounded(),
        ensures
            final(found)@ == old(found)@ + in_range(self.elems(), *range),
        decreases self,
    {
        if !self.intersects(range) {
            proof {
                lemma_apart_none_in_range(self.elems(), self.boundary, *range);
            }
            assert(old(found)@ + in_range(self.elems(), *range) =~= old(found)@);
            return;
        }
        let mut i: usize = 0;
        while i < self.bodies.len()
            invariant
                i <= self.bodies@.len(),
                range.bounded(),
                found@ == old(found)@ + in_range(self.bodies@.take(i as int), *range),
            decreases self.bodies@.len() - i,
        {
            let b = self.bodies[i];
            assert(self.bodies@.take(i + 1) =~= self.bodies@.take(i as int).push(b));
            proof {
                lemma_in_range_push(self.bodies@.take(i as int), b, *range);
            }
            if range.reaches(&b) {
                found.push(b);
            }
            i += 1;
        }
        assert(self.bodies@.take(i as int) =~= self.bodies@);
        match &self.nw {
            Some(c) => c.query(range, found),
            None => {},
        }
        match &self.ne {
            Some(c) => c.query(range, found),
            None => {},
        }
        match &self.sw {
            Some(c) => c.query(range, found),
            None => {},
        }
        match &self.se {
            Some(c) => c.query(range, found),
            None => {},
        }
        proof {
            lemma_in_range_add(self.bodies@ + opt_elems(self.nw) + opt_elems(self.ne) + opt_elems(self.sw), opt_elems(self.se), *range);
            lemma_in_range_add(self.bodies@ + opt_elems(self.nw) + opt_elems(self.ne), opt_elems(self.sw), *range);
            lemma_in_range_add(self.bodies@ + opt_elems(self.nw), opt_elems(self.ne), *range);
            lemma_in_range_add(self.bodies@, opt_elems(self.nw), *range);
        }
        assert(found@ =~= old(found)@ + in_range(self.elems(), *range));
    }

    /// The cell and `range` overlap, borders included.
    pub fn intersects(&self, range: &Node) -> (r: bool)
        requires
            self.boundary.bounded(),
            range.bounded(),
        ensures
            r == self.boundary.meets(*range),
    {
        self.boundary.x.meets_exec(&range.x) && self.boundary.y.meets_exec(&range.y)
    }

    /// Inserts `body` into the subtree in `slot`.
    fn insert_into(slot: &mut Option<Box<QuadTree>>, body: Point2) -> (res: bool)
        requires
            *old(slot) is Some,
            (*old(slot)).unwrap().wf(),
        ensures
            *final(slot) is Some,
            (*final(slot)).unwrap().wf(),
            res == ((*old(slot)).unwrap().boundary.covers(body) && (*old(slot)).unwrap().capacity > 0),
            (*old(slot)).unwrap().inserted(*(*final(slot)).unwrap(), body),
            res ==> 0 <= opt_insert_index(*old(slot), body) <= opt_elems(*old(slot)).len()
                && opt_elems(*final(slot)) == opt_elems(*old(slot)).insert(
                opt_insert_index(*old(slot), body),
                body,
            ),
            !res ==> *final(slot) == *old(slot),
        decreases (*old(slot)).unwrap().depth(), (*old(slot)).unwrap().full(), 2nat,
    {
        let mut child = slot.take().unwrap();
        let ghost before = child.elems();
        assert(opt_elems(*old(slot)) == before);
        let res = (&mut *child).insert(body);
        *slot = Some(child);
        assert(opt_elems(*slot) == child.elems());
        assert(opt_insert_index(*old(slot), body) == old(slot).unwrap().insert_index(body));
        res
    }
}

/// What an undivided, empty-leaf quadrant is: it holds nothing, puts a point first, and has
/// no depth.
proof fn lemma_leaf_facts(t: Option<Box<QuadTree>>, p: Point2)
    requires
        t is Some,
        t.unwrap().bodies@.len() == 0,
        t.unwrap().nw is None && t.unwrap().ne is None && t.unwrap().sw is None && t.unwrap().se is None,
    ensures
        opt_elems(t) == Seq::<Point2>::empty(),
        opt_insert_index(t, p) == 0,
        t.unwrap().depth() == 0,
{
    let c = t.unwrap();
    assert(c.elems() =~= Seq::<Point2>::empty());
    assert(opt_insert_index(t, p) == c.insert_index(p));
}

/// After inserting into a new empty quadrant with room, it holds just the point.
proof fn lemma_after_leaf(was_divided: bool, b: Option<Box<QuadTree>>, a: Option<Box<QuadTree>>, p: Point2)
    requires
        b is Some,
        a is Some,
        b.unwrap().inserted(*a.unwrap(), p),
        !was_divided ==> b.unwrap().is_leaf(b.unwrap().boundary, b.unwrap().capacity, Seq::empty()),
        !was_divided ==> b.unwrap().capacity > 0 && b.unwrap().boundary.covers(p),
    ensures
        !was_divided ==> a.unwrap().is_leaf(b.unwrap().boundary, b.unwrap().capacity, seq![p]),
{
    if !was_divided {
        assert(Seq::<Point2>::empty().push(p) =~= seq![p]);
    }
}

/// Inserting a covered point into covered points keeps them all covered.
proof fn lemma_insert_covered(s: Seq<Point2>, k: int, p: Point2, cell: Node)
    requires
        0 <= k <= s.len(),
        forall|i: int| 0 <= i < s.len() ==> cell.covers(#[trigger] s[i]),
        cell.covers(p),
    ensures
        forall|i: int| 0 <= i < s.insert(k, p).len() ==> cell.covers(#[trigger] s.insert(k, p)[i]),
{
    assert forall|i: int| 0 <= i < s.insert(k, p).len() implies cell.covers(
        #[trigger] s.insert(k, p)[i],
    ) by {
        if i < k {
            assert(s.insert(k, p)[i] == s[i]);
        } else if i > k {
            assert(s.insert(k, p)[i] == s[i - 1]);
        }
    }
}

/// Filtering by a range distributes over concatenation.
pub proof fn lemma_in_range_add(a: Seq<Point2>, b: Seq<Point2>, range: Node)
    ensures
        in_range(a + b, range) == in_range(a, range) + in_range(b, range),
{
    Seq::filter_distributes_over_add(a, b, |p: Point2| range.encloses(p));
}

/// Filtering by a range after pushing a point.
pub proof fn lemma_in_range_push(s: Seq<Point2>, p: Point2, range: Node)
    ensures
        in_range(s.push(p), range) == if range.encloses(p) {
            in_range(s, range).push(p)
        } else {
            in_range(s, range)
        },
{
    s.lemma_filter_push(p, |q: Point2| range.encloses(q));
}

/// Points inside a cell that does not meet `range` are all outside `range`.
pub proof fn lemma_apart_none_in_range(s: Seq<Point2>, cell: Node, range: Node)
    requires
        forall|i: int| 0 <= i < s.len() ==> cell.covers(#[trigger] s[i]),
        !cell.meets(range),
    ensures
        in_range(s, range) == Seq::<Point2>::empty(),
{
    let pred = |p: Point2| range.encloses(p);
    if in_range(s, range).len() > 0 {
        let e = s.filter(pred)[0];
        s.lemma_filter_pred(pred, 0);
        assert(s.filter(pred).contains(e));
        s.lemma_filter_contains_rev(pred, e);
        let j: int = choose|j: int| 0 <= j < s.len() && s[j] == e;
        lemma_shared_point_meets(cell, range, s[j]);
    }
    assert(in_range(s, range) =~= Seq::<Point2>::empty());
}

/// After `insert` has stored `p`, a query whose range reaches `p` reports it.
pub proof fn lemma_inserted_point_is_found(
    before: Seq<Point2>,
    after: Seq<Point2>,
    k: int,
    p: Point2,
    range: Node,
)
    requires
        0 <= k <= before.len(),
        after == before.insert(k, p),
        range.encloses(p),
    ensures
        in_range(after, range).contains(p),
{
    assert(after[k] == p);
    after.lemma_filter_contains(|q: Point2| range.encloses(q), k);
}

/// `query` reports only stored points that its range reaches, and every stored point that
/// the range reaches.
pub proof fn lemma_query_reports_stored_in_range(s: Seq<Point2>, range: Node, p: Point2)
    ensures
        in_range(s, range).contains(p) ==> s.contains(p) && range.encloses(p),
        s.contains(p) && range.encloses(p) ==> in_range(s, range).contains(p),
{
    let pred = |q: Point2| range.encloses(q);
    if in_range(s, range).contains(p) {
        s.lemma_filter_contains_rev(pred, p);
        let j: int = choose|j: int| 0 <= j < s.filter(pred).len() && s.filter(pred)[j] == p;
        s.lemma_filter_pred(pred, j);
    }
    if s.contains(p) && range.encloses(p) {
        let j: int = choose|j: int| 0 <= j < s.len() && s[j] == p;
        s.lemma_filter_contains(pred, j);
    }
}

} // verus!
