use vstd::prelude::*;
use crate::n_body::octree::{Node, Octree, Point3};

verus! {

/// How many recorded positions a body's trail keeps.
pub const TRAIL_LEN: usize = 150;

/// The list of bodies in a simulation, with the trail of recent positions of each.
/// `bodies[i]` and `paths[i]` belong to the same body.
pub struct Simulation<B, P> {
    pub bodies: Vec<B>,
    pub paths: Vec<Vec<P>>,
}

/// A trail after recording `p`: `p` is appended and, once the trail would be longer than
/// `TRAIL_LEN`, its oldest position is dropped.
pub open spec fn extend_trail<P>(t: Seq<P>, p: P) -> Seq<P> {
    if t.len() + 1 > TRAIL_LEN {
        t.push(p).drop_first()
    } else {
        t.push(p)
    }
}

impl<B, P: Copy> Simulation<B, P> {
    /// The trails, as sequences of positions.
    pub open spec fn trails(self) -> Seq<Seq<P>> {
        self.paths@.map_values(|v: Vec<P>| v@)
    }

    /// Every body has a trail, and no trail is longer than `TRAIL_LEN`.
    pub open spec fn wf(self) -> bool {
        &&& self.bodies@.len() == self.paths@.len()
        &&& forall|i: int| 0 <= i < self.paths@.len() ==> (#[trigger] self.paths@[i])@.len() <= TRAIL_LEN
    }

    pub fn new() -> (s: Self)
        ensures
            s.bodies@ == Seq::<B>::empty(),
            s.trails() == Seq::<Seq<P>>::empty(),
            s.wf(),
    {
        let s = Simulation { bodies: Vec::new(), paths: Vec::new() };
        assert(s.trails() =~= Seq::<Seq<P>>::empty());
        s
    }

    /// Appends `body`, with an empty trail.
    pub fn add_body(&mut self, body: B)
        ensures
            final(self).bodies@ == old(self).bodies@.push(body),
            final(self).trails() == old(self).trails().push(Seq::<P>::empty()),
            old(self).wf() ==> final(self).wf(),
    {
        self.bodies.push(body);
        self.paths.push(Vec::new());
        assert(self.trails() =~= old(self).trails().push(Seq::<P>::empty()));
    }

    /// Puts `body`, with an empty trail, at position `index`, moving later bodies up.
    pub fn insert_body(&mut self, index: usize, body: B)
        requires
            index <= old(self).bodies@.len(),
            index <= old(self).paths@.len(),
        ensures
            final(self).bodies@ == old(self).bodies@.insert(index as int, body),
            final(self).trails() == old(self).trails().insert(index as int, Seq::<P>::empty()),
            old(self).wf() ==> final(self).wf(),
    {
        self.bodies.insert(index, body);
        self.paths.insert(index, Vec::new());
        assert(self.trails() =~= old(self).trails().insert(index as int, Seq::<P>::empty()));
        proof {
            if old(self).wf() {
                assert forall|i: int| 0 <= i < self.paths@.len() implies (
                #[trigger] self.paths@[i])@.len() <= TRAIL_LEN by {
                    if i > index {
                        assert(self.paths@[i] == old(self).paths@[i - 1]);
                    } else if i < index {
                        assert(self.paths@[i] == old(self).paths@[i]);
                    }
                }
            }
        }
    }

    /// Removes the body at `index` and its trail; an index past the last body changes
    /// nothing.
    pub fn remove_body(&mut self, index: usize)
        requires
            index < old(self).bodies@.len() ==> index < old(self).paths@.len(),
        ensures
            index < old(self).bodies@.len() ==> final(self).bodies@ == old(self).bodies@.remove(
                index as int,
            ) && final(self).trails() == old(self).trails().remove(index as int),
            index >= old(self).bodies@.len() ==> final(self).bodies@ == old(self).bodies@
                && final(self).trails() == old(self).trails(),
            old(self).wf() ==> final(self).wf(),
    {
        if index < self.bodies.len() {
            self.bodies.remove(index);
            self.paths.remove(index);
            assert(self.trails() =~= old(self).trails().remove(index as int));
            proof {
                if old(self).wf() {
                    assert forall|i: int| 0 <= i < self.paths@.len() implies (
                    #[trigger] self.paths@[i])@.len() <= TRAIL_LEN by {
                        if i >= index {
                            assert(self.paths@[i] == old(self).paths@[i + 1]);
                        } else {
                            assert(self.paths@[i] == old(self).paths@[i]);
                        }
                    }
                }
            }
        }
    }

    /// The trail of body `i` before recording: its own, or an empty one for a body past the
    /// end of `paths`.
    pub open spec fn trail_or_empty(self, i: int) -> Seq<P> {
        if i < self.paths@.len() {
            self.paths@[i]@
        } else {
            Seq::<P>::empty()
        }
    }

    /// Records `points[i]` as the newest position of body `i`, for every body. Trails are
    /// first made as many as the bodies: those past the last body are dropped, and bodies
    /// without one get an empty trail. Each trail then grows by `extend_trail`.
    pub fn record_trails(&mut self, points: &[P])
        requires
            points@.len() == old(self).bodies@.len(),
        ensures
            final(self).bodies@ == old(self).bodies@,
            final(self).paths@.len() == old(self).bodies@.len(),
            forall|i: int|
                0 <= i < old(self).bodies@.len() ==> #[trigger] final(self).trails()[i]
                    == extend_trail(old(self).trail_or_empty(i), points@[i]),
            old(self).wf() ==> final(self).wf(),
    {
        let n: usize = self.bodies.len();
        if self.paths.len() != n {
            self.paths.truncate(n);
            while self.paths.len() < n
                invariant
                    self.bodies@ == old(self).bodies@,
                    n == self.bodies@.len(),
                    self.paths@.len() <= n,
                    self.paths@.len() >= old(self).paths@.len() || self.paths@.len() == n,
                    forall|i: int|
                        0 <= i < self.paths@.len() ==> (#[trigger] self.paths@[i])@
                            == old(self).trail_or_empty(i),
                decreases n - self.paths@.len(),
            {
                self.paths.push(Vec::new());
            }
        }
        let mut i: usize = 0;
        while i < n
            invariant
                self.bodies@ == old(self).bodies@,
                n == self.bodies@.len(),
                points@.len() == n,
                self.paths@.len() == n,
                i <= n,
                forall|j: int|
                    0 <= j < i ==> (#[trigger] self.paths@[j])@ == extend_trail(
                        old(self).trail_or_empty(j),
                        points@[j],
                    ),
                forall|j: int|
                    i <= j < n ==> (#[trigger] self.paths@[j])@ == old(self).trail_or_empty(j),
            decreases n - i,
        {
            let p = points[i];
            self.paths[i].push(p);
            if self.paths[i].len() > TRAIL_LEN {
                self.paths[i].remove(0);
            }
            assert(self.paths@[i as int]@ =~= extend_trail(old(self).trail_or_empty(i as int), p));
            i += 1;
        }
        proof {
            if old(self).wf() {
                assert forall|j: int| 0 <= j < self.paths@.len() implies (
                #[trigger] self.paths@[j])@.len() <= TRAIL_LEN by {
                    assert(old(self).trail_or_empty(j).len() <= TRAIL_LEN);
                }
            }
        }
    }

    /// Removes every body and trail.
    pub fn clear(&mut self)
        ensures
            final(self).bodies@ == Seq::<B>::empty(),
            final(self).trails() == Seq::<Seq<P>>::empty(),
            final(self).wf(),
    {
        self.bodies.clear();
        self.paths.clear();
        assert(self.trails() =~= Seq::<Seq<P>>::empty());
    }
}

/// Builds the octree that the collision pass queries: a new tree on `boundary` with
/// `capacity`, into which the indices of the positions are inserted one by one, in order.
/// The result is the last of a run of trees that starts with the new tree and goes by one
/// `insert` per index; it stores each index whose position the cell covers (when the
/// capacity is not 0), once, and no other.
pub fn build_octree(boundary: Node, capacity: usize, positions: &[Point3]) -> (tree: Octree)
    requires
        boundary.bounded(),
    ensures
        tree.wf(),
        tree.boundary == boundary,
        tree.capacity == capacity,
        tree.placed(positions@),
        tree.elems().no_duplicates(),
        tree.indices_below(positions@.len()),
        forall|i: usize|
            i < positions@.len() ==> (tree.elems().contains(i) <==> (capacity > 0
                && boundary.covers(#[trigger] positions@[i as int]))),
        exists|steps: Seq<Octree>|
            {
                &&& steps.len() == positions@.len() + 1
                &&& steps[0].is_leaf(boundary, capacity, Seq::empty())
                &&& steps.last() == tree
                &&& forall|i: int|
                    0 <= i < positions@.len() ==> (#[trigger] steps[i]).inserted(
                        steps[i + 1],
                        i as usize,
                        positions@[i],
                    )
            },
{
    let mut tree = Octree::new(boundary, capacity);
    let ghost mut steps: Seq<Octree> = seq![tree];
    let mut i: usize = 0;
    while i < positions.len()
        invariant
            i <= positions@.len(),
            tree.wf(),
            tree.boundary == boundary,
            tree.capacity == capacity,
            tree.placed(positions@),
            tree.elems().no_duplicates(),
            forall|k: int| 0 <= k < tree.elems().len() ==> (#[trigger] tree.elems()[k]) < i,
            forall|j: usize|
                j < i ==> (tree.elems().contains(j) <==> (capacity > 0 && boundary.covers(
                    #[trigger] positions@[j as int],
                ))),
            steps.len() == i + 1,
            steps[0].is_leaf(boundary, capacity, Seq::empty()),
            steps.last() == tree,
            forall|j: int|
                0 <= j < i ==> (#[trigger] steps[j]).inserted(steps[j + 1], j as usize, positions@[j]),
        decreases positions@.len() - i,
    {
        let ghost before = tree.elems();
        let ghost old_tree = tree;
        let stored = tree.insert(i, positions);
        proof {
            let prev = steps;
            steps = steps.push(tree);
            assert forall|j: int|
                0 <= j < i + 1 implies (#[trigger] steps[j]).inserted(
                steps[j + 1],
                j as usize,
                positions@[j],
            ) by {
                if j < i {
                    assert(steps[j] == prev[j]);
                    assert(steps[j + 1] == prev[j + 1]);
                } else {
                    assert(steps[j] == old_tree);
                }
            }
            if stored {
                let m: int = old_tree.insert_index(positions@[i as int]);
                assert forall|k: int| 0 <= k < tree.elems().len() implies (
                #[trigger] tree.elems()[k]) < i + 1 by {
                    if k < m {
                        assert(tree.elems()[k] == before[k]);
                    } else if k > m {
                        assert(tree.elems()[k] == before[k - 1]);
                    }
                }
                assert forall|a: int, b: int|
                    0 <= a < tree.elems().len() && 0 <= b < tree.elems().len() && a != b implies tree.elems()[a]
                    != tree.elems()[b] by {
                    let e = tree.elems();
                    assert(a < m ==> e[a] == before[a]);
                    assert(a > m ==> e[a] == before[a - 1]);
                    assert(b < m ==> e[b] == before[b]);
                    assert(b > m ==> e[b] == before[b - 1]);
                    assert(e[m] == i);
                }
                assert forall|j: usize| j < i + 1 implies (tree.elems().contains(j) <==> (capacity
                    > 0 && boundary.covers(#[trigger] positions@[j as int]))) by {
                    if j < i {
                        if before.contains(j) {
                            let q: int = choose|q: int| 0 <= q < before.len() && before[q] == j;
                            if q < m {
                                assert(tree.elems()[q] == j);
                            } else {
                                assert(tree.elems()[q + 1] == j);
                            }
                        }
                        if tree.elems().contains(j) {
                            let q: int = choose|q: int| 0 <= q < tree.elems().len() && tree.elems()[q] == j;
                            if q < m {
                                assert(before[q] == j);
                            } else if q > m {
                                assert(before[q - 1] == j);
                            }
                        }
                    } else {
                        assert(tree.elems()[m] == i);
                    }
                }
            } else {
                assert forall|j: usize| j < i + 1 implies (tree.elems().contains(j) <==> (capacity
                    > 0 && boundary.covers(#[trigger] positions@[j as int]))) by {
                    if j == i {
                        if tree.elems().contains(j) {
                            let q: int = choose|q: int| 0 <= q < tree.elems().len() && tree.elems()[q] == j;
                            assert(tree.elems()[q] < i);
                        }
                    }
                }
            }
        }
        i += 1;
    }
    tree
}

/// `a` comes before `b` in lexicographic order.
pub open spec fn pair_before(a: (usize, usize), b: (usize, usize)) -> bool {
    a.0 < b.0 || (a.0 == b.0 && a.1 < b.1)
}

/// The pairs of bodies that the pairwise collision pass resolves, in the order it resolves
/// them: every `(i, j)` with `i < j < count`, once each, in lexicographic order.
pub fn collision_pairs(count: usize) -> (pairs: Vec<(usize, usize)>)
    ensures
        forall|k: int| 0 <= k < pairs@.len() ==> (#[trigger] pairs@[k]).0 < pairs@[k].1 < count,
        forall|i: usize, j: usize| i < j < count ==> pairs@.contains((i, j)),
        forall|a: int, b: int|
            0 <= a < b < pairs@.len() ==> pair_before(#[trigger] pairs@[a], #[trigger] pairs@[b]),
{
    let mut pairs: Vec<(usize, usize)> = Vec::new();
    let mut i: usize = 0;
    while i < count
        invariant
            i <= count,
            forall|k: int|
                0 <= k < pairs@.len() ==> (#[trigger] pairs@[k]).0 < pairs@[k].1 < count
                    && pairs@[k].0 < i,
            forall|a: usize, b: usize| a < b < count && a < i ==> pairs@.contains((a, b)),
            forall|a: int, b: int|
                0 <= a < b < pairs@.len() ==> pair_before(#[trigger] pairs@[a], #[trigger] pairs@[b]),
        decreases count - i,
    {
        let mut j: usize = i + 1;
        while j < count
            invariant
                i < count,
                i + 1 <= j <= count,
                forall|k: int|
                    0 <= k < pairs@.len() ==> (#[trigger] pairs@[k]).0 < pairs@[k].1 < count && (
                    pairs@[k].0 < i || (pairs@[k].0 == i && pairs@[k].1 < j)),
                forall|a: usize, b: usize|
                    a < b < count && (a < i || (a == i && b < j)) ==> pairs@.contains((a, b)),
                forall|a: int, b: int|
                    0 <= a < b < pairs@.len() ==> pair_before(
                        #[trigger] pairs@[a],
                        #[trigger] pairs@[b],
                    ),
            decreases count - j,
        {
            let ghost before = pairs@;
            pairs.push((i, j));
            assert forall|a: usize, b: usize|
                a < b < count && (a < i || (a == i && b < j + 1)) implies pairs@.contains(
                (a, b),
            ) by {
                if a == i && b == j {
                    assert(pairs@[pairs@.len() - 1] == (i, j));
                } else {
                    assert(before.contains((a, b)));
                    let k: int = choose|k: int| 0 <= k < before.len() && before[k] == (a, b);
                    assert(pairs@[k] == (a, b));
                }
            }
            j += 1;
        }
        i += 1;
    }
    pairs
}

/// The indices that the octree collision pass pairs with body `i`: those that `tree`
/// reports for a cube of side `reach` centred on body `i`, keeping only the ones after `i`,
/// in the order reported.
pub fn collision_partners(tree: &Octree, i: usize, positions: &[Point3], reach: u64) -> (partners:
    Vec<usize>)
    requires
        tree.wf(),
        tree.indices_below(positions@.len()),
        i < positions@.len(),
    ensures
        partners@ == tree.visible(Node::cube(positions@[i as int], reach), positions@).filter(
            |j: usize| j > i,
        ),
{
    let range = Node::new(positions[i], reach);
    let mut found: Vec<usize> = Vec::new();
    tree.query(&range, positions, &mut found);
    assert(found@ =~= tree.visible(range, positions@));
    let mut partners: Vec<usize> = Vec::new();
    let mut k: usize = 0;
    while k < found.len()
        invariant
            k <= found@.len(),
            partners@ == found@.take(k as int).filter(|j: usize| j > i),
        decreases found@.len() - k,
    {
        let j: usize = found[k];
        proof {
            found@.take(k as int).lemma_filter_push(j, |j: usize| j > i);
            assert(found@.take(k + 1) =~= found@.take(k as int).push(j));
        }
        if j > i {
            partners.push(j);
        }
        k += 1;
    }
    assert(found@.take(k as int) =~= found@);
    partners
}

/// A trail after recording each position of `ps` in turn.
pub open spec fn record_all<P>(t: Seq<P>, ps: Seq<P>) -> Seq<P>
    decreases ps.len(),
{
    if ps.len() == 0 {
        t
    } else {
        extend_trail(record_all(t, ps.drop_last()), ps.last())
    }
}

/// The newest `TRAIL_LEN` positions of `s` (all of them if there are fewer).
pub open spec fn newest<P>(s: Seq<P>) -> Seq<P> {
    if s.len() > TRAIL_LEN {
        s.skip(s.len() - TRAIL_LEN)
    } else {
        s
    }
}

/// A trail holds the newest `TRAIL_LEN` positions recorded: starting from a trail no longer
/// than `TRAIL_LEN`, recording the positions `ps` one by one leaves the newest `TRAIL_LEN`
/// of the old trail followed by `ps`.
pub proof fn lemma_trail_keeps_newest<P>(t: Seq<P>, ps: Seq<P>)
    requires
        t.len() <= TRAIL_LEN,
    ensures
        record_all(t, ps) == newest(t + ps),
        record_all(t, ps).len() <= TRAIL_LEN,
    decreases ps.len(),
{
    if ps.len() == 0 {
        assert(t + ps =~= t);
    } else {
        lemma_trail_keeps_newest(t, ps.drop_last());
        let prev = t + ps.drop_last();
        assert(t + ps =~= prev.push(ps.last()));
        if prev.len() + 1 > TRAIL_LEN {
            assert(newest(prev).push(ps.last()).drop_first() =~= newest(prev.push(ps.last())));
        } else {
            assert(newest(prev).push(ps.last()) =~= newest(prev.push(ps.last())));
        }
    }
}

/// Removing the body just added restores the bodies and trails.
pub proof fn lemma_add_then_remove<B, P>(bodies: Seq<B>, trails: Seq<Seq<P>>, body: B)
    ensures
        bodies.push(body).remove(bodies.len() as int) == bodies,
        trails.push(Seq::<P>::empty()).remove(trails.len() as int) == trails,
{
    assert(bodies.push(body).remove(bodies.len() as int) =~= bodies);
    assert(trails.push(Seq::<P>::empty()).remove(trails.len() as int) =~= trails);
}

/// Removing the body just inserted at `index` restores the bodies and trails.
pub proof fn lemma_insert_then_remove<B, P>(
    bodies: Seq<B>,
    trails: Seq<Seq<P>>,
    index: int,
    body: B,
)
    requires
        0 <= index <= bodies.len(),
        index <= trails.len(),
    ensures
        bodies.insert(index, body).remove(index) == bodies,
        trails.insert(index, Seq::<P>::empty()).remove(index) == trails,
{
    assert(bodies.insert(index, body).remove(index) =~= bodies);
    assert(trails.insert(index, Seq::<P>::empty()).remove(index) =~= trails);
}

} // verus!
