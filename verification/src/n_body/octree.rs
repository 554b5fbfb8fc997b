use vstd::prelude::*;
use crate::n_body::seq_facts::{lemma_insert_append_left, lemma_insert_append_right};
use crate::n_body::span::{lemma_parts_split, lemma_shared_meets, Span};

verus! {

/// A position on the integer grid that the octree indexes.
#[derive(Clone, Copy, Debug, PartialEq, Eq)]
pub struct Point3 {
    pub x: i64,
    pub y: i64,
    pub z: i64,
}

impl Point3 {
    pub fn new(x: i64, y: i64, z: i64) -> (p: Point3)
        ensures
            p.x == x,
            p.y == y,
            p.z == z,
    {
        Point3 { x, y, z }
    }
}

/// A box-shaped cell, given by its span on each axis. `Node::new` makes the cube of a given
/// side around a centre; dividing a cell makes boxes that split it exactly.
#[derive(Clone, Copy, Debug)]
pub struct Node {
    pub x: Span,
    pub y: Span,
    pub z: Span,
}

impl Node {
    /// The cell covers `p`: its lower faces belong to it, its upper faces do not.
    pub open spec fn covers(self, p: Point3) -> bool {
        self.x.holds(p.x) && self.y.holds(p.y) && self.z.holds(p.z)
    }

    /// The closed boxes of the cell and of `range` overlap.
    pub open spec fn meets(self, range: Node) -> bool {
        self.x.meets(range.x) && self.y.meets(range.y) && self.z.meets(range.z)
    }

    /// All three spans are in order and within the bound.
    pub open spec fn bounded(self) -> bool {
        self.x.bounded() && self.y.bounded() && self.z.bounded()
    }

    /// The `k`-th octant of the cell (0 <= k < 8): bit 0 of `k` takes the upper part in x,
    /// bit 1 in y, bit 2 in z.
    pub open spec fn octant(self, k: int) -> Node {
        Node { x: self.x.part(k % 2 == 1), y: self.y.part((k / 2) % 2 == 1), z: self.z.part(k >= 4) }
    }

    /// The octant that holds `p`, if the cell covers it.
    pub open spec fn octant_index(self, p: Point3) -> int {
        (if self.x.upper().holds(p.x) { 1int } else { 0int }) + (if self.y.upper().holds(p.y) {
            2int
        } else {
            0int
        }) + (if self.z.upper().holds(p.z) { 4int } else { 0int })
    }

    /// The cube of side `size` centred on `pos`.
    pub open spec fn cube(pos: Point3, size: u64) -> Node {
        Node {
            x: Span::centred(pos.x, size),
            y: Span::centred(pos.y, size),
            z: Span::centred(pos.z, size),
        }
    }

    /// The cube of side `size` centred on `pos`.
    pub fn new(pos: Point3, size: u64) -> (n: Node)
        ensures
            n == Node::cube(pos, size),
            n.bounded(),
            forall|p: Point3| #[trigger] n.covers(p) <==> {
                &&& 2 * pos.x - size <= 2 * p.x < 2 * pos.x + size
                &&& 2 * pos.y - size <= 2 * p.y < 2 * pos.y + size
                &&& 2 * pos.z - size <= 2 * p.z < 2 * pos.z + size
            },
    {
        Node {
            x: Span::new_centred(pos.x, size),
            y: Span::new_centred(pos.y, size),
            z: Span::new_centred(pos.z, size),
        }
    }

    pub fn contains(&self, p_pos: &Point3) -> (r: bool)
        requires
            self.bounded(),
        ensures
            r == self.covers(*p_pos),
    {
        self.x.holds_exec(p_pos.x) && self.y.holds_exec(p_pos.y) && self.z.holds_exec(p_pos.z)
    }

    pub fn intersects(&self, range: &Node) -> (r: bool)
        requires
            self.bounded(),
            range.bounded(),
        ensures
            r == self.meets(*range),
    {
        self.x.meets_exec(&range.x) && self.y.meets_exec(&range.y) && self.z.meets_exec(&range.z)
    }
}

/// A cell's octants split it exactly: a point lies in the cell exactly when it lies in an
/// octant, and then only in the one `octant_index` names; every octant is bounded.
pub proof fn lemma_octants_split(n: Node, p: Point3)
    requires
        n.bounded(),
    ensures
        n.covers(p) <==> exists|k: int| 0 <= k < 8 && (#[trigger] n.octant(k)).covers(p),
        n.covers(p) ==> 0 <= n.octant_index(p) < 8 && n.octant(n.octant_index(p)).covers(p),
        forall|k: int| 0 <= k < 8 && k != n.octant_index(p) ==> !(#[trigger] n.octant(k)).covers(p),
        forall|k: int| 0 <= k < 8 ==> (#[trigger] n.octant(k)).bounded(),
{
    lemma_parts_split(n.x, p.x);
    lemma_parts_split(n.y, p.y);
    lemma_parts_split(n.z, p.z);
    if n.covers(p) {
        assert(n.octant(n.octant_index(p)).covers(p));
    }
}

/// A point that two cells both cover shows that the cells meet.
pub proof fn lemma_shared_point_meets(a: Node, b: Node, p: Point3)
    requires
        a.covers(p),
        b.covers(p),
    ensures
        a.meets(b),
        b.meets(a),
{
    lemma_shared_meets(a.x, b.x, p.x);
    lemma_shared_meets(a.y, b.y, p.y);
    lemma_shared_meets(a.z, b.z, p.z);
}

/// An octree over the positions of a slice of bodies: it stores indices into that slice.
/// Each cell keeps up to `capacity` indices itself and hands further ones to its eight
/// octants once it has divided.
pub struct Octree {
    pub boundary: Node,
    pub capacity: usize,
    pub bodies: Vec<usize>,
    pub divided: bool,
    pub children: Option<Vec<Octree>>,
}

/// The indices held by a sequence of subtrees, in order.
pub open spec fn seq_elems(s: Seq<Octree>) -> Seq<usize>
    decreases s,
{
    if s.len() == 0 {
        Seq::empty()
    } else {
        seq_elems(s.drop_last()) + s.last().elems()
    }
}

/// The indices in `s` whose bodies `range` covers, in order.
pub open spec fn in_range(s: Seq<usize>, range: Node, pts: Seq<Point3>) -> Seq<usize> {
    s.filter(|i: usize| range.covers(pts[i as int]))
}

/// What `query` reports from a run of subtrees, in order.
pub open spec fn seq_visible(s: Seq<Octree>, range: Node, pts: Seq<Point3>) -> Seq<usize>
    decreases s,
{
    if s.len() == 0 {
        Seq::empty()
    } else {
        seq_visible(s.drop_last(), range, pts) + s.last().visible(range, pts)
    }
}

/// The greatest depth among a run of subtrees.
pub open spec fn seq_depth(s: Seq<Octree>) -> nat
    decreases s,
{
    if s.len() == 0 {
        0
    } else {
        let a = seq_depth(s.drop_last());
        let b = s.last().depth();
        if a >= b { a } else { b }
    }
}

impl Octree {
    /// What `query` reports for bodies at `pts`: nothing from a cell that does not meet
    /// `range`; otherwise the cell's own indices whose bodies `range` covers, then what each
    /// octant reports, in order.
    pub open spec fn visible(self, range: Node, pts: Seq<Point3>) -> Seq<usize>
        decreases self,
    {
        if !self.boundary.meets(range) {
            Seq::empty()
        } else {
            match self.children {
                Some(kids) => in_range(self.bodies@, range, pts) + seq_visible(kids@, range, pts),
                None => in_range(self.bodies@, range, pts),
            }
        }
    }

    /// Every stored index is an index of `pts`, and the body it names lies in the cell of
    /// every subtree that stores it.
    pub open spec fn placed(self, pts: Seq<Point3>) -> bool
        decreases self,
    {
        &&& forall|i: int|
            0 <= i < self.elems().len() ==> (#[trigger] self.elems()[i]) < pts.len()
                && self.boundary.covers(pts[self.elems()[i] as int])
        &&& match self.children {
            Some(kids) => forall|k: int| 0 <= k < kids@.len() ==> (#[trigger] kids@[k]).placed(pts),
            None => true,
        }
    }

    /// Every stored index is below `n`.
    pub open spec fn indices_below(self, n: nat) -> bool {
        forall|i: int| 0 <= i < self.elems().len() ==> (#[trigger] self.elems()[i]) < n
    }

    /// All indices stored in the tree: this cell's own, then those of its octants in order.
    pub open spec fn elems(self) -> Seq<usize>
        decreases self,
    {
        match self.children {
            Some(kids) => self.bodies@ + seq_elems(kids@),
            None => self.bodies@,
        }
    }

    /// How many levels of division the tree has.
    pub open spec fn depth(self) -> nat
        decreases self,
    {
        match self.children {
            Some(kids) => seq_depth(kids@) + 1,
            None => 0,
        }
    }

    /// 1 when the cell itself has no room left, else 0.
    pub open spec fn full(self) -> nat {
        if self.bodies@.len() >= self.capacity { 1 } else { 0 }
    }

    /// The tree's invariant: the cell is bounded, no cell holds more than `capacity` indices
    /// itself, and a cell has divided only when full, its eight octants then being its
    /// children, in order.
    pub open spec fn wf(self) -> bool
        decreases self,
    {
        &&& self.boundary.bounded()
        &&& self.bodies@.len() <= self.capacity
        &&& match self.children {
            Some(kids) => {
                &&& self.divided
                &&& self.bodies@.len() == self.capacity
                &&& kids@.len() == 8
                &&& forall|k: int|
                    0 <= k < 8 ==> {
                        &&& (#[trigger] kids@[k]).boundary == self.boundary.octant(k)
                        &&& kids@[k].capacity == self.capacity
                        &&& kids@[k].wf()
                    }
            },
            None => !self.divided,
        }
    }

    /// A tree on `boundary` with `capacity` that holds just `idx` itself and has not divided.
    pub open spec fn is_leaf(self, boundary: Node, capacity: usize, idx: Seq<usize>) -> bool {
        &&& self.boundary == boundary
        &&& self.capacity == capacity
        &&& self.bodies@ == idx
        &&& !self.divided
        &&& self.children is None
    }

    /// `after` is this tree with index `x`, whose body is at `p`, inserted. A body outside
    /// the cell, or any body when the capacity is 0, leaves the tree as it was. A cell with
    /// room keeps `x` itself. A full cell keeps its own indices and is divided (into new,
    /// empty octants if it had not divided), and `x` is inserted into the octant that covers
    /// `p`; the other octants are unchanged.
    pub open spec fn inserted(self, after: Octree, x: usize, p: Point3) -> bool
        decreases self,
    {
        if !self.boundary.covers(p) || self.capacity == 0 {
            after == self
        } else if self.bodies@.len() < self.capacity {
            &&& after.boundary == self.boundary
            &&& after.capacity == self.capacity
            &&& after.bodies@ == self.bodies@.push(x)
            &&& after.divided == self.divided
            &&& after.children == self.children
        } else {
            let t = self.boundary.octant_index(p);
            &&& after.boundary == self.boundary
            &&& after.capacity == self.capacity
            &&& after.bodies@ == self.bodies@
            &&& after.divided
            &&& after.children is Some
            &&& after.children.unwrap()@.len() == 8
            &&& match self.children {
                Some(kids) => kids@.len() == 8 && forall|k: int|
                    0 <= k < 8 ==> if k == t {
                        (#[trigger] kids@[k]).inserted(after.children.unwrap()@[k], x, p)
                    } else {
                        after.children.unwrap()@[k] == kids@[k]
                    },
                None => forall|k: int|
                    0 <= k < 8 ==> (#[trigger] after.children.unwrap()@[k]).is_leaf(
                        self.boundary.octant(k),
                        self.capacity,
                        if k == t { seq![x] } else { Seq::empty() },
                    ),
            }
        }
    }

    /// Where `insert` puts an index whose body is at `p` among the stored indices (see
    /// `elems`): after this cell's own indices while the cell has room, else at its place in
    /// the octant that covers `p`.
    pub open spec fn insert_index(self, p: Point3) -> int
        decreases self,
    {
        let t = self.boundary.octant_index(p);
        if self.bodies@.len() < self.capacity {
            self.bodies@.len() as int
        } else {
            match self.children {
                Some(kids) => if 0 <= t < kids@.len() {
                    self.bodies@.len() + seq_elems(kids@.take(t)).len() + kids@[t].insert_index(p)
                } else {
                    self.bodies@.len() as int
                },
                None => self.bodies@.len() as int,
            }
        }
    }

    pub fn new(boundary: Node, capacity: usize) -> (t: Octree)
        ensures
            t.is_leaf(boundary, capacity, Seq::empty()),
            t.elems() == Seq::<usize>::empty(),
            boundary.bounded() ==> t.wf(),
    {
        let t = Octree { boundary, capacity, bodies: Vec::new(), divided: false, children: None };
        assert(t.elems() =~= Seq::<usize>::empty());
        t
    }

    /// Makes the eight octants of the cell its children, each empty, and marks it divided.
    /// Indices already held by former children are dropped with them.
    pub fn subdivide(&mut self)
        requires
            old(self).boundary.bounded(),
        ensures
            final(self).boundary == old(self).boundary,
            final(self).capacity == old(self).capacity,
            final(self).bodies@ == old(self).bodies@,
            final(self).divided,
            final(self).children is Some,
            final(self).children.unwrap()@.len() == 8,
            forall|k: int|
                0 <= k < 8 ==> (#[trigger] final(self).children.unwrap()@[k]).is_leaf(
                    old(self).boundary.octant(k),
                    old(self).capacity,
                    Seq::empty(),
                ),
            final(self).elems() == old(self).bodies@,
            old(self).wf() && old(self).bodies@.len() == old(self).capacity ==> final(self).wf(),
    {
        proof {
            lemma_octants_split(self.boundary, Point3 { x: 0, y: 0, z: 0 });
        }
        let (xl, xu) = self.boundary.x.split();
        let (yl, yu) = self.boundary.y.split();
        let (zl, zu) = self.boundary.z.split();
        let mut kids: Vec<Octree> = Vec::new();
        let mut k: usize = 0;
        while k < 8
            invariant
                self.boundary == old(self).boundary,
                self.capacity == old(self).capacity,
                self.boundary.bounded(),
                xl == self.boundary.x.lower(),
                xu == self.boundary.x.upper(),
                yl == self.boundary.y.lower(),
                yu == self.boundary.y.upper(),
                zl == self.boundary.z.lower(),
                zu == self.boundary.z.upper(),
                forall|j: int| 0 <= j < 8 ==> (#[trigger] self.boundary.octant(j)).bounded(),
                k <= 8,
                kids@.len() == k,
                forall|j: int|
                    0 <= j < k ==> (#[trigger] kids@[j]).is_leaf(
                        self.boundary.octant(j),
                        self.capacity,
                        Seq::empty(),
                    ) && kids@[j].wf() && kids@[j].elems() == Seq::<usize>::empty(),
            decreases 8 - k,
        {
            let x = if k % 2 == 1 { xu } else { xl };
            let y = if (k / 2) % 2 == 1 { yu } else { yl };
            let z = if k >= 4 { zu } else { zl };
            let child = Octree::new(Node { x, y, z }, self.capacity);
            assert(child.boundary == self.boundary.octant(k as int));
            kids.push(child);
            k += 1;
        }
        proof {
            lemma_seq_elems_empty(kids@);
        }
        self.children = Some(kids);
        self.divided = true;
        assert(self.elems() =~= self.bodies@);
    }

    /// Stores `index` if the cell covers its body `all_bodies[index]` and the capacity is
    /// not 0: in this cell while it has room, else (dividing the cell first if it has not
    /// divided) in the octant that covers the body, the octants being offered `index` in
    /// order. Returns whether it was stored; a refused index leaves the tree as it was.
    pub fn insert(&mut self, index: usize, all_bodies: &[Point3]) -> (res: bool)
        requires
            old(self).wf(),
            index < all_bodies@.len(),
        ensures
            final(self).wf(),
            res == (old(self).boundary.covers(all_bodies@[index as int]) && old(self).capacity
                > 0),
            old(self).inserted(*final(self), index, all_bodies@[index as int]),
            res ==> 0 <= old(self).insert_index(all_bodies@[index as int]) <= old(
                self,
            ).elems().len() && final(self).elems() == old(self).elems().insert(
                old(self).insert_index(all_bodies@[index as int]),
                index,
            ),
            !res ==> *final(self) == *old(self),
            old(self).placed(all_bodies@) ==> final(self).placed(all_bodies@),
        decreases old(self).depth(), old(self).full(),
    {
        let ghost p = all_bodies@[index as int];
        let ghost pts = all_bodies@;
        if !self.boundary.contains(&all_bodies[index]) || self.capacity == 0 {
            return false;
        }
        if self.bodies.len() < self.capacity {
            let ghost old_elems = self.elems();
            let ghost nb = self.bodies@.len();
            self.bodies.push(index);
            assert(self.elems() =~= old_elems.insert(nb as int, index));
            proof {
                if old(self).placed(pts) {
                    lemma_insert_placed(old_elems, nb as int, index, self.boundary, pts);
                }
            }
            return true;
        }
        let ghost before = *self;
        let ghost t = before.boundary.octant_index(p);
        proof {
            lemma_octants_split(before.boundary, p);
        }
        if !self.divided {
            self.subdivide();
        }
        let ghost mid = *self;
        let mut kids = self.children.take().unwrap();
        let ghost orig = kids@;
        proof {
            if before.divided {
                lemma_seq_depth_bound(orig);
            } else {
                assert forall|j: int| 0 <= j < 8 implies (#[trigger] orig[j]).depth() == 0
                    && orig[j].full() == 0 && orig[j].elems() == Seq::<usize>::empty()
                    && orig[j].insert_index(p) == 0 by {
                    assert(orig[j].elems() =~= Seq::<usize>::empty());
                }
                assert(before.elems() =~= before.bodies@);
                if old(self).placed(pts) {
                    assert forall|j: int| 0 <= j < 8 implies (#[trigger] orig[j]).placed(pts) by {
                        assert(orig[j].elems() =~= Seq::<usize>::empty());
                    }
                }
            }
            assert(mid.elems() == before.elems());
        }
        let mut i: usize = 0;
        while i < kids.len()
            invariant
                orig.len() == 8,
                kids@ == orig,
                i <= 8,
                0 <= t < 8,
                index < all_bodies@.len(),
                p == all_bodies@[index as int],
                pts == all_bodies@,
                before.wf(),
                before.boundary.covers(p),
                before.capacity > 0,
                before.bodies@.len() >= before.capacity,
                t == before.boundary.octant_index(p),
                before.boundary.octant(t).covers(p),
                forall|j: int| 0 <= j < 8 && j != t ==> !(#[trigger] before.boundary.octant(j)).covers(p),
                before.divided ==> before.children == Some(mid.children.unwrap()),
                before.divided ==> forall|j: int| 0 <= j < 8 ==> (#[trigger] orig[j]).depth() < before.depth(),
                !before.divided ==> forall|j: int|
                    0 <= j < 8 ==> (#[trigger] orig[j]).depth() == 0 && orig[j].full() == 0
                        && orig[j].elems() == Seq::<usize>::empty() && orig[j].insert_index(p) == 0,
                !before.divided ==> forall|j: int|
                    0 <= j < 8 ==> (#[trigger] orig[j]).is_leaf(before.boundary.octant(j), before.capacity, Seq::empty()),
                mid.wf(),
                mid.divided,
                mid.children is Some,
                mid.children.unwrap()@ == orig,
                mid.boundary == before.boundary,
                mid.capacity == before.capacity,
                mid.bodies@ == before.bodies@,
                mid.elems() == before.elems(),
                self.boundary == mid.boundary,
                self.capacity == mid.capacity,
                self.bodies@ == mid.bodies@,
                self.divided,
                *old(self) == before,
                before.placed(pts) ==> mid.placed(pts),
                before.placed(pts) ==> forall|j: int| 0 <= j < 8 ==> (#[trigger] orig[j]).placed(pts),
                i <= t,
            decreases 8 - i,
        {
            assert(orig[i as int].boundary == before.boundary.octant(i as int));
            let r = kids[i].insert(index, all_bodies);
            if r {
                proof {
                    assert(i == t);
                    let k: int = orig[t].insert_index(p);
                    lemma_splice_child(mid.bodies@, orig, kids@, t, k, index);
                    let m: int = mid.bodies@.len() + seq_elems(orig.take(t)).len() + k;
                    if !before.divided {
                        assert forall|j: int| 0 <= j < t implies (#[trigger] orig.take(t)[j]).elems()
                            == Seq::<usize>::empty() by {
                            assert(orig.take(t)[j] == orig[j]);
                        }
                        lemma_seq_elems_empty(orig.take(t));
                        assert(Seq::<usize>::empty().push(index) =~= seq![index]);
                    }
                    assert(m == before.insert_index(p));
                    if before.placed(pts) {
                        lemma_insert_placed(mid.elems(), m, index, mid.boundary, pts);
                    }
                }
                self.children = Some(kids);
                return true;
            }
            i += 1;
        }
        proof {
            assert(false);
        }
        self.children = Some(kids);
        false
    }

    /// Appends to `found`, in storage order, every stored index whose body in `all_bodies`
    /// `range` covers; cells that do not meet `range` are skipped. When the bodies still lie
    /// where they were inserted, this is every stored index whose body is in `range`.
    pub fn query(&self, range: &Node, all_bodies: &[Point3], found: &mut Vec<usize>)
        requires
            self.wf(),
            range.bounded(),
            self.indices_below(all_bodies@.len()),
        ensures
            final(found)@ == old(found)@ + self.visible(*range, all_bodies@),
            self.placed(all_bodies@) ==> final(found)@ == old(found)@ + in_range(
                self.elems(),
                *range,
                all_bodies@,
            ),
            !self.boundary.meets(*range) ==> final(found)@ == old(found)@,
            self.boundary.meets(*range) ==> forall|j: int|
                0 <= j < self.bodies@.len() && range.covers(
                    all_bodies@[#[trigger] self.bodies@[j] as int],
                ) ==> final(found)@.contains(self.bodies@[j]),
        decreases self,
    {
        proof {
            if self.placed(all_bodies@) {
                lemma_visible_is_in_range(*self, *range, all_bodies@);
            }
            lemma_query_by_current_positions(*self, *range, all_bodies@);
        }
        if !self.boundary.intersects(range) {
            assert(old(found)@ + self.visible(*range, all_bodies@) =~= old(found)@);
            return;
        }
        let ghost pts = all_bodies@;
        let mut i: usize = 0;
        while i < self.bodies.len()
            invariant
                i <= self.bodies@.len(),
                range.bounded(),
                self.indices_below(pts.len()),
                pts == all_bodies@,
                found@ == old(found)@ + in_range(self.bodies@.take(i as int), *range, pts),
            decreases self.bodies@.len() - i,
        {
            let index: usize = self.bodies[i];
            assert(self.elems()[i as int] == index);
            assert(self.bodies@.take(i + 1) =~= self.bodies@.take(i as int).push(index));
            proof {
                lemma_in_range_push(self.bodies@.take(i as int), index, *range, pts);
            }
            if range.contains(&all_bodies[index]) {
                found.push(index);
            }
            i += 1;
        }
        assert(self.bodies@.take(i as int) =~= self.bodies@);
        let ghost mid = found@;
        if self.divided {
            match &self.children {
                Some(kids) => {
                    let mut k: usize = 0;
                    while k < kids.len()
                        invariant
                            k <= kids@.len(),
                            range.bounded(),
                            self.children == Some(*kids),
                            self.wf(),
                            self.indices_below(pts.len()),
                            pts == all_bodies@,
                            found@ == mid + seq_visible(kids@.take(k as int), *range, pts),
                        decreases kids@.len() - k,
                    {
                        proof {
                            lemma_seq_elems_split(kids@, k as int);
                            assert forall|j: int| 0 <= j < kids@[k as int].elems().len() implies (
                            #[trigger] kids@[k as int].elems()[j]) < pts.len() by {
                                let off: int = (self.bodies@.len() + seq_elems(kids@.take(k as int)).len()) as int;
                                assert(self.elems()[off + j] == kids@[k as int].elems()[j]);
                            }
                            lemma_seq_visible_push(kids@.take(k as int), kids@[k as int], *range, pts);
                            assert(kids@.take(k + 1) =~= kids@.take(k as int).push(kids@[k as int]));
                        }
                        kids[k].query(range, all_bodies, found);
                        k += 1;
                    }
                    assert(kids@.take(k as int) =~= kids@);
                },
                None => {},
            }
        }
        proof {
            lemma_query_by_current_positions(*self, *range, all_bodies@);
            let v = self.visible(*range, all_bodies@);
            assert forall|x: usize| v.contains(x) implies (old(found)@ + v).contains(x) by {
                let m: int = choose|m: int| 0 <= m < v.len() && v[m] == x;
                assert((old(found)@ + v)[old(found)@.len() + m] == x);
            }
        }
    }
}

/// Subtrees holding the same indices, one by one, hold the same indices together.
pub proof fn lemma_seq_elems_same(a: Seq<Octree>, b: Seq<Octree>)
    requires
        a.len() == b.len(),
        forall|k: int| 0 <= k < a.len() ==> (#[trigger] a[k]).elems() == b[k].elems(),
    ensures
        seq_elems(a) == seq_elems(b),
    decreases a.len(),
{
    if a.len() > 0 {
        lemma_seq_elems_same(a.drop_last(), b.drop_last());
        assert(a.last() == a[a.len() - 1]);
        assert(b.last() == b[b.len() - 1]);
    }
}


/// Storing `x` in the `i`-th of a run of subtrees stores it at one place among the indices
/// that follow `front`.
proof fn lemma_splice_child(
    front: Seq<usize>,
    orig: Seq<Octree>,
    kids: Seq<Octree>,
    i: int,
    k: int,
    x: usize,
)
    requires
        orig.len() == kids.len(),
        0 <= i < orig.len(),
        forall|j: int| 0 <= j < i ==> (#[trigger] kids[j]).elems() == orig[j].elems(),
        forall|j: int| i < j < orig.len() ==> #[trigger] kids[j] == orig[j],
        0 <= k <= orig[i].elems().len(),
        kids[i].elems() == orig[i].elems().insert(k, x),
    ensures
        0 <= front.len() + seq_elems(orig.take(i)).len() + k <= (front + seq_elems(orig)).len(),
        front + seq_elems(kids) == (front + seq_elems(orig)).insert(
            front.len() + seq_elems(orig.take(i)).len() + k,
            x,
        ),
{
    lemma_seq_elems_split(kids, i);
    lemma_seq_elems_split(orig, i);
    lemma_seq_elems_same(kids.take(i), orig.take(i));
    assert(kids.skip(i + 1) =~= orig.skip(i + 1));
    let a = front + seq_elems(orig.take(i));
    let c = seq_elems(orig.skip(i + 1));
    lemma_insert_append_right(a, orig[i].elems(), k, x);
    lemma_insert_append_left(a + orig[i].elems(), c, a.len() + k, x);
    assert(front + seq_elems(orig) =~= a + orig[i].elems() + c);
    assert(front + seq_elems(kids) =~= a + kids[i].elems() + c);
    assert(0 <= a.len() + k <= (front + seq_elems(orig)).len());
}

/// Filtering by a range after pushing an index.
pub proof fn lemma_in_range_push(s: Seq<usize>, x: usize, range: Node, pts: Seq<Point3>)
    ensures
        in_range(s.push(x), range, pts) == if range.covers(pts[x as int]) {
            in_range(s, range, pts).push(x)
        } else {
            in_range(s, range, pts)
        },
{
    s.lemma_filter_push(x, |i: usize| range.covers(pts[i as int]));
}

/// What a run of subtrees reports after appending one more subtree.
pub proof fn lemma_seq_visible_push(s: Seq<Octree>, t: Octree, range: Node, pts: Seq<Point3>)
    ensures
        seq_visible(s.push(t), range, pts) == seq_visible(s, range, pts) + t.visible(range, pts),
{
    assert(s.push(t).drop_last() =~= s);
}

/// Inserting an index whose body the cell covers keeps all indices placed in the cell.
proof fn lemma_insert_placed(s: Seq<usize>, k: int, x: usize, cell: Node, pts: Seq<Point3>)
    requires
        0 <= k <= s.len(),
        forall|i: int|
            0 <= i < s.len() ==> (#[trigger] s[i]) < pts.len() && cell.covers(pts[s[i] as int]),
        x < pts.len(),
        cell.covers(pts[x as int]),
    ensures
        forall|i: int|
            0 <= i < s.insert(k, x).len() ==> (#[trigger] s.insert(k, x)[i]) < pts.len()
                && cell.covers(pts[s.insert(k, x)[i] as int]),
{
    assert forall|i: int| 0 <= i < s.insert(k, x).len() implies (#[trigger] s.insert(k, x)[i])
        < pts.len() && cell.covers(pts[s.insert(k, x)[i] as int]) by {
        if i < k {
            assert(s.insert(k, x)[i] == s[i]);
        } else if i > k {
            assert(s.insert(k, x)[i] == s[i - 1]);
        }
    }
}



/// Subtrees that hold nothing together hold nothing.
pub proof fn lemma_seq_elems_empty(s: Seq<Octree>)
    requires
        forall|k: int| 0 <= k < s.len() ==> (#[trigger] s[k]).elems() == Seq::<usize>::empty(),
    ensures
        seq_elems(s) == Seq::<usize>::empty(),
    decreases s.len(),
{
    if s.len() > 0 {
        lemma_seq_elems_empty(s.drop_last());
        assert(s.last() == s[s.len() - 1]);
        assert(seq_elems(s) =~= Seq::<usize>::empty());
    }
}

/// The indices of subtrees after appending one more subtree.
pub proof fn lemma_seq_elems_push(s: Seq<Octree>, t: Octree)
    ensures
        seq_elems(s.push(t)) == seq_elems(s) + t.elems(),
{
    assert(s.push(t).drop_last() =~= s);
}

/// The indices of two runs of subtrees, one after the other.
pub proof fn lemma_seq_elems_append(a: Seq<Octree>, b: Seq<Octree>)
    ensures
        seq_elems(a + b) == seq_elems(a) + seq_elems(b),
    decreases b.len(),
{
    if b.len() == 0 {
        assert(a + b =~= a);
        assert(seq_elems(a) + seq_elems(b) =~= seq_elems(a));
    } else {
        lemma_seq_elems_append(a, b.drop_last());
        assert((a + b).drop_last() =~= a + b.drop_last());
        assert((a + b).last() == b.last());
        assert(seq_elems(a + b) =~= seq_elems(a) + seq_elems(b));
    }
}

/// The indices of subtrees split around the `i`-th one.
pub proof fn lemma_seq_elems_split(s: Seq<Octree>, i: int)
    requires
        0 <= i < s.len(),
    ensures
        seq_elems(s) == seq_elems(s.take(i)) + s[i].elems() + seq_elems(s.skip(i + 1)),
{
    assert(s =~= s.take(i).push(s[i]) + s.skip(i + 1));
    lemma_seq_elems_append(s.take(i).push(s[i]), s.skip(i + 1));
    lemma_seq_elems_push(s.take(i), s[i]);
}

/// Filtering by a range distributes over concatenation.
pub proof fn lemma_in_range_add(a: Seq<usize>, b: Seq<usize>, range: Node, pts: Seq<Point3>)
    ensures
        in_range(a + b, range, pts) == in_range(a, range, pts) + in_range(b, range, pts),
{
    Seq::filter_distributes_over_add(a, b, |i: usize| range.covers(pts[i as int]));
}

/// Indices whose bodies lie in a cell that does not meet `range` are none of them in `range`.
pub proof fn lemma_apart_none_in_range(s: Seq<usize>, cell: Node, range: Node, pts: Seq<Point3>)
    requires
        forall|i: int|
            0 <= i < s.len() ==> (#[trigger] s[i]) < pts.len() && cell.covers(pts[s[i] as int]),
        !cell.meets(range),
    ensures
        in_range(s, range, pts) == Seq::<usize>::empty(),
{
    let pred = |i: usize| range.covers(pts[i as int]);
    if in_range(s, range, pts).len() > 0 {
        let e = s.filter(pred)[0];
        s.lemma_filter_pred(pred, 0);
        assert(s.filter(pred).contains(e));
        s.lemma_filter_contains_rev(pred, e);
        let j: int = choose|j: int| 0 <= j < s.len() && s[j] == e;
        lemma_shared_point_meets(cell, range, pts[s[j] as int]);
    }
    assert(in_range(s, range, pts) =~= Seq::<usize>::empty());
}

/// When every stored body still lies where it was inserted, `query` reports exactly the
/// stored indices whose bodies `range` covers, in storage order: skipping cells that do not
/// meet the range loses none of them.
pub proof fn lemma_visible_is_in_range(t: Octree, range: Node, pts: Seq<Point3>)
    requires
        t.wf(),
        t.placed(pts),
    ensures
        t.visible(range, pts) == in_range(t.elems(), range, pts),
    decreases t,
{
    if !t.boundary.meets(range) {
        lemma_apart_none_in_range(t.elems(), t.boundary, range, pts);
    } else {
        match t.children {
            Some(kids) => {
                lemma_seq_visible_is_in_range(kids@, range, pts);
                lemma_in_range_add(t.bodies@, seq_elems(kids@), range, pts);
            },
            None => {},
        }
    }
}

/// The run-of-subtrees form of `lemma_visible_is_in_range`.
pub proof fn lemma_seq_visible_is_in_range(s: Seq<Octree>, range: Node, pts: Seq<Point3>)
    requires
        forall|k: int| 0 <= k < s.len() ==> (#[trigger] s[k]).wf() && s[k].placed(pts),
    ensures
        seq_visible(s, range, pts) == in_range(seq_elems(s), range, pts),
    decreases s,
{
    if s.len() == 0 {
        assert(in_range(seq_elems(s), range, pts) =~= Seq::<usize>::empty()) by {
            reveal(Seq::filter);
        }
    } else {
        assert(s.last() == s[s.len() - 1]);
        lemma_seq_visible_is_in_range(s.drop_last(), range, pts);
        lemma_visible_is_in_range(s.last(), range, pts);
        lemma_in_range_add(seq_elems(s.drop_last()), s.last().elems(), range, pts);
    }
}

/// What `query` reports, for any positions of the bodies (also when some have moved since
/// they were inserted): a cell that does not meet `range` reports nothing; a cell that meets
/// it reports each of its own indices whose body `range` now covers, and everything each of
/// its octants reports, whether or not its bodies still lie in it; and every reported index
/// is a stored index whose body `range` now covers.
pub proof fn lemma_query_by_current_positions(t: Octree, range: Node, pts: Seq<Point3>)
    ensures
        !t.boundary.meets(range) ==> t.visible(range, pts) == Seq::<usize>::empty(),
        t.boundary.meets(range) ==> forall|j: int|
            0 <= j < t.bodies@.len() && range.covers(pts[#[trigger] t.bodies@[j] as int])
                ==> t.visible(range, pts).contains(t.bodies@[j]),
        t.boundary.meets(range) ==> match t.children {
            Some(kids) => forall|k: int, i: usize|
                0 <= k < kids@.len() && #[trigger] kids@[k].visible(range, pts).contains(i)
                    ==> t.visible(range, pts).contains(i),
            None => true,
        },
        forall|i: usize| #[trigger] t.visible(range, pts).contains(i) ==> t.elems().contains(i)
            && range.covers(pts[i as int]),
{
    let pred = |i: usize| range.covers(pts[i as int]);
    if t.boundary.meets(range) {
        let own = in_range(t.bodies@, range, pts);
        assert forall|j: int|
            0 <= j < t.bodies@.len() && range.covers(pts[#[trigger] t.bodies@[j] as int])
                implies t.visible(range, pts).contains(t.bodies@[j]) by {
            t.bodies@.lemma_filter_contains(pred, j);
            let m: int = choose|m: int| 0 <= m < own.len() && own[m] == t.bodies@[j];
            match t.children {
                Some(kids) => {
                    assert((own + seq_visible(kids@, range, pts))[m] == t.bodies@[j]);
                },
                None => {},
            }
        }
        match t.children {
            Some(kids) => {
                assert forall|k: int, i: usize|
                    0 <= k < kids@.len() && #[trigger] kids@[k].visible(range, pts).contains(i)
                        implies t.visible(range, pts).contains(i) by {
                    lemma_seq_visible_has_each(kids@, k, i, range, pts);
                    let b = seq_visible(kids@, range, pts);
                    let m: int = choose|m: int| 0 <= m < b.len() && b[m] == i;
                    assert((own + b)[own.len() + m] == i);
                }
            },
            None => {},
        }
    }
    assert forall|i: usize| #[trigger] t.visible(range, pts).contains(i) implies t.elems().contains(i)
        && range.covers(pts[i as int]) by {
        lemma_visible_sound(t, range, pts, i);
    }
}

/// What a run of subtrees reports includes everything each subtree of the run reports.
proof fn lemma_seq_visible_has_each(s: Seq<Octree>, k: int, i: usize, range: Node, pts: Seq<Point3>)
    requires
        0 <= k < s.len(),
        s[k].visible(range, pts).contains(i),
    ensures
        seq_visible(s, range, pts).contains(i),
    decreases s.len(),
{
    let a = seq_visible(s.drop_last(), range, pts);
    let b = s.last().visible(range, pts);
    if k == s.len() - 1 {
        assert(s.last() == s[k]);
        let m: int = choose|m: int| 0 <= m < b.len() && b[m] == i;
        assert((a + b)[a.len() + m] == i);
    } else {
        assert(s.drop_last()[k] == s[k]);
        lemma_seq_visible_has_each(s.drop_last(), k, i, range, pts);
        let m: int = choose|m: int| 0 <= m < a.len() && a[m] == i;
        assert((a + b)[m] == i);
    }
}

/// A reported index is stored in the tree, and `range` covers its body.
proof fn lemma_visible_sound(t: Octree, range: Node, pts: Seq<Point3>, i: usize)
    requires
        t.visible(range, pts).contains(i),
    ensures
        t.elems().contains(i),
        range.covers(pts[i as int]),
    decreases t,
{
    let pred = |x: usize| range.covers(pts[x as int]);
    let own = in_range(t.bodies@, range, pts);
    match t.children {
        Some(kids) => {
            let b = seq_visible(kids@, range, pts);
            let m: int = choose|m: int| 0 <= m < (own + b).len() && (own + b)[m] == i;
            if m < own.len() {
                assert(own[m] == i);
                t.bodies@.lemma_filter_contains_rev(pred, i);
                let j: int = choose|j: int| 0 <= j < t.bodies@.len() && t.bodies@[j] == i;
                assert((t.bodies@ + seq_elems(kids@))[j] == i);
            } else {
                assert(b[m - own.len()] == i);
                lemma_seq_visible_sound(kids@, range, pts, i);
                let e = seq_elems(kids@);
                let j: int = choose|j: int| 0 <= j < e.len() && e[j] == i;
                assert((t.bodies@ + e)[t.bodies@.len() + j] == i);
            }
        },
        None => {
            t.bodies@.lemma_filter_contains_rev(pred, i);
        },
    }
}

/// The run-of-subtrees form of `lemma_visible_sound`.
proof fn lemma_seq_visible_sound(s: Seq<Octree>, range: Node, pts: Seq<Point3>, i: usize)
    requires
        seq_visible(s, range, pts).contains(i),
    ensures
        seq_elems(s).contains(i),
        range.covers(pts[i as int]),
    decreases s,
{
    if s.len() == 0 {
        assert(false);
    } else {
        let a = seq_visible(s.drop_last(), range, pts);
        let b = s.last().visible(range, pts);
        let ea = seq_elems(s.drop_last());
        let eb = s.last().elems();
        assert(s.last() == s[s.len() - 1]);
        let m: int = choose|m: int| 0 <= m < (a + b).len() && (a + b)[m] == i;
        if m < a.len() {
            assert(a[m] == i);
            lemma_seq_visible_sound(s.drop_last(), range, pts, i);
            let j: int = choose|j: int| 0 <= j < ea.len() && ea[j] == i;
            assert((ea + eb)[j] == i);
        } else {
            assert(b[m - a.len()] == i);
            lemma_visible_sound(s.last(), range, pts, i);
            let j: int = choose|j: int| 0 <= j < eb.len() && eb[j] == i;
            assert((ea + eb)[ea.len() + j] == i);
        }
    }
}

/// After `insert` has stored `x`, a query whose range covers `x`'s body reports `x`.
pub proof fn lemma_inserted_index_is_found(
    before: Seq<usize>,
    after: Seq<usize>,
    k: int,
    x: usize,
    range: Node,
    pts: Seq<Point3>,
)
    requires
        0 <= k <= before.len(),
        after == before.insert(k, x),
        x < pts.len(),
        range.covers(pts[x as int]),
    ensures
        in_range(after, range, pts).contains(x),
{
    assert(after[k] == x);
    after.lemma_filter_contains(|i: usize| range.covers(pts[i as int]), k);
}

/// No subtree of a run is deeper than the run's greatest depth.
pub proof fn lemma_seq_depth_bound(s: Seq<Octree>)
    ensures
        forall|j: int| 0 <= j < s.len() ==> (#[trigger] s[j]).depth() <= seq_depth(s),
    decreases s.len(),
{
    if s.len() > 0 {
        lemma_seq_depth_bound(s.drop_last());
        assert forall|j: int| 0 <= j < s.len() implies (#[trigger] s[j]).depth() <= seq_depth(s) by {
            if j < s.len() - 1 {
                assert(s[j] == s.drop_last()[j]);
            }
        }
    }
}

} // verus!
