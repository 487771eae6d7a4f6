use vstd::prelude::*;
use vstd::multiset::Multiset;
use crate::bbox::Box2d;
use crate::vec2::{div_trunc, Vec2, POS_LIMIT};

verus! {

/// The four quadrant children of a subdivided node, in the fixed order the
/// insertion tries them: low-x low-y, high-x low-y, low-x high-y, high-x
/// high-y.
pub struct Quads {
    pub q0: QuadTree,
    pub q1: QuadTree,
    pub q2: QuadTree,
    pub q3: QuadTree,
}

/// A spatial partition over axis-aligned boxes: each node owns a boundary, a
/// bucket of up to `capacity` entries, and, once the bucket has overflowed,
/// four lazily built children quartering the boundary. The index is rebuilt
/// from scratch for every detection pass, so there is no removal.
pub struct QuadTree {
    pub boundary: Box2d,
    pub capacity: usize,
    pub bucket: Vec<(Vec2, u64)>,
    pub children: Option<Box<Quads>>,
}

impl QuadTree {
    /// Every entry stored in this subtree, with its insertion position.
    pub open spec fn entries(self) -> Seq<(Vec2, u64)>
        decreases self,
    {
        self.bucket@ + match self.children {
            None => Seq::<(Vec2, u64)>::empty(),
            Some(q) => q.q0.entries() + q.q1.entries() + q.q2.entries() + q.q3.entries(),
        }
    }

    /// Every entry of the subtree lies inside the box `b`.
    pub open spec fn all_within(self, b: Box2d) -> bool
        decreases self,
    {
        &&& (forall|k: int|
            0 <= k < self.bucket@.len() ==> b.contains_spec(
                (#[trigger] self.bucket@[k]).0.x as int,
                self.bucket@[k].0.y as int,
            ))
        &&& match self.children {
            None => true,
            Some(q) => q.q0.all_within(b) && q.q1.all_within(b) && q.q2.all_within(b)
                && q.q3.all_within(b),
        }
    }

    /// Ordered corners within the safe coordinate range, every stored entry
    /// inside the boundary of the node that stores it, recursively.
    pub open spec fn wf(self) -> bool
        decreases self,
    {
        &&& self.boundary.wf()
        &&& self.boundary.within(POS_LIMIT as int)
        &&& self.all_within(self.boundary)
        &&& match self.children {
            None => true,
            Some(q) => q.q0.wf() && q.q1.wf() && q.q2.wf() && q.q3.wf(),
        }
    }

    /// An empty node covering `boundary`.
    pub fn new(boundary: Box2d, capacity: usize) -> (t: QuadTree)
        requires
            boundary.wf(),
            boundary.within(POS_LIMIT as int),
        ensures
            t.wf(),
            t.entries() == Seq::<(Vec2, u64)>::empty(),
            t.boundary == boundary,
            t.capacity == capacity,
            t.bucket@ == Seq::<(Vec2, u64)>::empty(),
            t.children.is_none(),
    {
        let t = QuadTree { boundary, capacity, bucket: Vec::new(), children: None };
        proof {
            assert(t.entries() =~= Seq::<(Vec2, u64)>::empty());
            assert(t.bucket@ =~= Seq::<(Vec2, u64)>::empty());
        }
        t
    }

    /// Four empty children quartering `b`, split at the floor midpoint.
    fn quarters(b: Box2d, capacity: usize) -> (q: Quads)
        requires
            b.wf(),
            b.within(POS_LIMIT as int),
        ensures
            q.q0.wf() && q.q1.wf() && q.q2.wf() && q.q3.wf(),
            q.q0.entries() == Seq::<(Vec2, u64)>::empty(),
            q.q1.entries() == Seq::<(Vec2, u64)>::empty(),
            q.q2.entries() == Seq::<(Vec2, u64)>::empty(),
            q.q3.entries() == Seq::<(Vec2, u64)>::empty(),
            q.q0.bucket@ == Seq::<(Vec2, u64)>::empty(),
            q.q1.bucket@ == Seq::<(Vec2, u64)>::empty(),
            q.q2.bucket@ == Seq::<(Vec2, u64)>::empty(),
            q.q3.bucket@ == Seq::<(Vec2, u64)>::empty(),
            q.q0.children.is_none() && q.q1.children.is_none() && q.q2.children.is_none()
                && q.q3.children.is_none(),
            forall|bb: Box2d| #[trigger] q.q0.all_within(bb),
            forall|bb: Box2d| #[trigger] q.q1.all_within(bb),
            forall|bb: Box2d| #[trigger] q.q2.all_within(bb),
            forall|bb: Box2d| #[trigger] q.q3.all_within(bb),
    {
        let mx = b.min.x + div_trunc(b.max.x - b.min.x, 2);
        let my = b.min.y + div_trunc(b.max.y - b.min.y, 2);
        let mid = Vec2 { x: mx, y: my };
        let b0 = Box2d { min: b.min, max: mid };
        let b1 = Box2d { min: Vec2 { x: mx, y: b.min.y }, max: Vec2 { x: b.max.x, y: my } };
        let b2 = Box2d { min: Vec2 { x: b.min.x, y: my }, max: Vec2 { x: mx, y: b.max.y } };
        let b3 = Box2d { min: mid, max: b.max };
        Quads {
            q0: QuadTree::new(b0, capacity),
            q1: QuadTree::new(b1, capacity),
            q2: QuadTree::new(b2, capacity),
            q3: QuadTree::new(b3, capacity),
        }
    }

    /// Insert an entry. Returns `false`, leaving the tree unchanged, exactly
    /// when the position lies outside this node's boundary: the caller either
    /// sizes the root over the whole simulation or accepts that out-of-bounds
    /// entities drop out of the broad phase for the frame. On success the
    /// stored entries grow by exactly this entry. The node keeps the entry in
    /// its own bucket while under capacity; on overflow it subdivides once
    /// and delegates to the quadrant child covering the position, trying the
    /// children in a fixed deterministic order. A position no child covers
    /// (possible only on degenerate boundaries) overflows the node's own
    /// bucket rather than being lost.
    pub fn insert(&mut self, position: Vec2, payload: u64) -> (ok: bool)
        requires
            old(self).wf(),
        ensures
            final(self).wf(),
            final(self).boundary == old(self).boundary,
            final(self).capacity == old(self).capacity,
            ok == old(self).boundary.contains_spec(position.x as int, position.y as int),
            ok ==> final(self).entries().to_multiset() == old(self).entries().to_multiset().insert(
                (position, payload),
            ),
            !ok ==> *final(self) == *old(self),
            forall|b: Box2d|
                old(self).all_within(b) && b.contains_spec(position.x as int, position.y as int)
                    ==> #[trigger] final(self).all_within(b),
        decreases *old(self),
    {
        broadcast use vstd::seq_lib::group_to_multiset_ensures;
        broadcast use vstd::seq_lib::lemma_multiset_commutative;

        if !self.boundary.contains(position) {
            return false;
        }
        let e = (position, payload);
        if self.bucket.len() < self.capacity {
            self.bucket.push(e);
            proof {
                assert(self.bucket@ == old(self).bucket@.push(e));
                assert(self.bucket@ =~= old(self).bucket@ + seq![e]);
                lemma_concat_multiset_insert(old(self).bucket@, rest_of(*old(self)), e);
                assert(self.entries() =~= self.bucket@ + rest_of(*old(self)));
                assert(old(self).entries() =~= old(self).bucket@ + rest_of(*old(self)));
                assert forall|b: Box2d|
                    old(self).all_within(b) && b.contains_spec(
                        position.x as int,
                        position.y as int,
                    ) implies #[trigger] self.all_within(b) by {
                    lemma_push_all_within(*old(self), *self, e, b);
                }
                assert(self.all_within(self.boundary)) by {
                    lemma_push_all_within(*old(self), *self, e, self.boundary);
                }
            }
            return true;
        }
        if self.children.is_none() {
            let mut q = Self::quarters(self.boundary, self.capacity);
            let ghost fresh = (q.q0, q.q1, q.q2, q.q3);
            let mut in_child = true;
            if q.q0.boundary.contains(position) {
                q.q0.bucket.push(e);
                proof {
                    lemma_fresh_child(fresh.0, q.q0, e);
                }
            } else if q.q1.boundary.contains(position) {
                q.q1.bucket.push(e);
                proof {
                    lemma_fresh_child(fresh.1, q.q1, e);
                }
            } else if q.q2.boundary.contains(position) {
                q.q2.bucket.push(e);
                proof {
                    lemma_fresh_child(fresh.2, q.q2, e);
                }
            } else if q.q3.boundary.contains(position) {
                q.q3.bucket.push(e);
                proof {
                    lemma_fresh_child(fresh.3, q.q3, e);
                }
            } else {
                in_child = false;
                self.bucket.push(e);
            }
            self.children = Some(Box::new(q));
            proof {
                if in_child {
                    assert(self.entries() =~= old(self).bucket@.push(e));
                } else {
                    assert(self.bucket@ == old(self).bucket@.push(e));
                    assert(self.entries() =~= old(self).bucket@.push(e));
                }
                assert(old(self).entries() =~= old(self).bucket@);
                assert(self.entries().to_multiset() == old(self).entries().to_multiset().insert(
                    e,
                ));
                assert forall|b: Box2d|
                    old(self).all_within(b) && b.contains_spec(
                        position.x as int,
                        position.y as int,
                    ) implies #[trigger] self.all_within(b) by {
                    let qq = self.children.unwrap();
                    assert(qq.q0.all_within(b));
                    assert(qq.q1.all_within(b));
                    assert(qq.q2.all_within(b));
                    assert(qq.q3.all_within(b));
                    assert(self.all_within(b));
                }
                assert(self.all_within(self.boundary)) by {
                    assert(old(self).all_within(self.boundary));
                }
                assert(self.wf());
            }
            return true;
        }
        match self.children.take() {
            Some(mut q) => {
                let ghost before = (q.q0, q.q1, q.q2, q.q3);
                let mut delegated = true;
                if q.q0.boundary.contains(position) {
                    let _ = (&mut q.q0).insert(position, payload);
                } else if q.q1.boundary.contains(position) {
                    let _ = (&mut q.q1).insert(position, payload);
                } else if q.q2.boundary.contains(position) {
                    let _ = (&mut q.q2).insert(position, payload);
                } else if q.q3.boundary.contains(position) {
                    let _ = (&mut q.q3).insert(position, payload);
                } else {
                    delegated = false;
                    self.bucket.push(e);
                }
                self.children = Some(q);
                proof {
                    let rest = rest_of(*self);
                    let orest = rest_of(*old(self));
                    assert(self.entries() =~= self.bucket@ + rest);
                    assert(old(self).entries() =~= old(self).bucket@ + orest);
                    lemma_four_concat_multiset(
                        before.0.entries(),
                        before.1.entries(),
                        before.2.entries(),
                        before.3.entries(),
                    );
                    let cn = *self.children.unwrap();
                    lemma_four_concat_multiset(
                        cn.q0.entries(),
                        cn.q1.entries(),
                        cn.q2.entries(),
                        cn.q3.entries(),
                    );
                    vstd::seq_lib::lemma_multiset_commutative(self.bucket@, rest);
                    vstd::seq_lib::lemma_multiset_commutative(old(self).bucket@, orest);
                    if delegated {
                        assert(self.entries().to_multiset() =~= old(
                            self,
                        ).entries().to_multiset().insert(e));
                    } else {
                        assert(self.bucket@ == old(self).bucket@.push(e));
                        assert(rest == orest);
                        lemma_concat_multiset_insert(old(self).bucket@, orest, e);
                        assert(self.bucket@ =~= old(self).bucket@ + seq![e]);
                        assert(self.entries().to_multiset() =~= old(
                            self,
                        ).entries().to_multiset().insert(e));
                    }
                    assert forall|b: Box2d|
                        old(self).all_within(b) && b.contains_spec(
                            position.x as int,
                            position.y as int,
                        ) implies #[trigger] self.all_within(b) by {
                        let qq = self.children.unwrap();
                        assert(old(self).children.unwrap().q0.all_within(b));
                        assert(old(self).children.unwrap().q1.all_within(b));
                        assert(old(self).children.unwrap().q2.all_within(b));
                        assert(old(self).children.unwrap().q3.all_within(b));
                        assert(qq.q0.all_within(b));
                        assert(qq.q1.all_within(b));
                        assert(qq.q2.all_within(b));
                        assert(qq.q3.all_within(b));
                        assert(self.all_within(b));
                    }
                    assert(self.all_within(self.boundary)) by {
                        assert(old(self).all_within(self.boundary));
                    }
                    assert(self.wf());
                }
                true
            },
            None => {
                proof {
                    assert(false);
                }
                false
            },
        }
    }
}

impl QuadTree {
    /// The payloads a range query returns: all entries of every node whose
    /// boundary intersects the range, in a fixed depth-first order, so the
    /// result is deterministic given a deterministic insertion order.
    pub open spec fn query_spec(self, range: Box2d) -> Seq<u64>
        decreases self,
    {
        if !self.boundary.intersects_spec(range) {
            Seq::<u64>::empty()
        } else {
            self.bucket@.map(|i: int, e: (Vec2, u64)| e.1) + match self.children {
                None => Seq::<u64>::empty(),
                Some(q) => q.q0.query_spec(range) + q.q1.query_spec(range) + q.q2.query_spec(
                    range,
                ) + q.q3.query_spec(range),
            }
        }
    }

    /// Range query: collect the payloads of every node whose boundary
    /// intersects `range`, pruning subtrees whose boundary misses it.
    pub fn query(&self, range: &Box2d) -> (r: Vec<u64>)
        ensures
            r@ == self.query_spec(*range),
    {
        let mut out: Vec<u64> = Vec::new();
        self.query_into(range, &mut out);
        out
    }

    fn query_into(&self, range: &Box2d, out: &mut Vec<u64>)
        ensures
            final(out)@ == old(out)@ + self.query_spec(*range),
        decreases *self,
    {
        let ghost bmap = self.bucket@.map(|i: int, e: (Vec2, u64)| e.1);
        if !self.boundary.intersects(range) {
            proof {
                assert(out@ =~= old(out)@ + self.query_spec(*range));
            }
            return;
        }
        for i in 0..self.bucket.len()
            invariant
                out@ == old(out)@ + bmap.take(i as int),
                bmap == self.bucket@.map(|i: int, e: (Vec2, u64)| e.1),
        {
            out.push(self.bucket[i].1);
            proof {
                assert(bmap.take(i + 1) =~= bmap.take(i as int).push(bmap[i as int]));
            }
        }
        proof {
            assert(bmap.take(self.bucket@.len() as int) =~= bmap);
        }
        match &self.children {
            None => {
                proof {
                    assert(out@ =~= old(out)@ + self.query_spec(*range));
                }
            },
            Some(q) => {
                q.q0.query_into(range, out);
                q.q1.query_into(range, out);
                q.q2.query_into(range, out);
                q.q3.query_into(range, out);
                proof {
                    assert(out@ =~= old(out)@ + self.query_spec(*range));
                }
            },
        }
    }

    /// The payload of each stored entry, in storage order.
    pub open spec fn payloads(self) -> Seq<u64> {
        self.entries().map(|i: int, e: (Vec2, u64)| e.1)
    }
}

/// Membership in a concatenation is membership in either part.
proof fn lemma_concat_contains<A>(a: Seq<A>, b: Seq<A>, x: A)
    ensures
        (a + b).contains(x) <==> (a.contains(x) || b.contains(x)),
{
    if a.contains(x) {
        let i = choose|i: int| 0 <= i < a.len() && a[i] == x;
        assert((a + b)[i] == x);
    }
    if b.contains(x) {
        let i = choose|i: int| 0 <= i < b.len() && b[i] == x;
        assert((a + b)[a.len() + i] == x);
    }
    if (a + b).contains(x) {
        let i = choose|i: int| 0 <= i < (a + b).len() && (a + b)[i] == x;
        if i < a.len() {
            assert(a[i] == x);
        } else {
            assert(b[i - a.len()] == x);
        }
    }
}

/// Mapping distributes over concatenation.
proof fn lemma_map_concat(a: Seq<(Vec2, u64)>, b: Seq<(Vec2, u64)>)
    ensures
        (a + b).map(|i: int, e: (Vec2, u64)| e.1) == a.map(|i: int, e: (Vec2, u64)| e.1) + b.map(
            |i: int, e: (Vec2, u64)| e.1,
        ),
{
    assert((a + b).map(|i: int, e: (Vec2, u64)| e.1) =~= a.map(|i: int, e: (Vec2, u64)| e.1)
        + b.map(|i: int, e: (Vec2, u64)| e.1));
}

/// Every entry of a subtree that stays within `b` lies inside `b`.
proof fn lemma_entries_within(t: QuadTree, b: Box2d)
    requires
        t.all_within(b),
    ensures
        forall|k: int|
            0 <= k < t.entries().len() ==> b.contains_spec(
                (#[trigger] t.entries()[k]).0.x as int,
                t.entries()[k].0.y as int,
            ),
    decreases t,
{
    match t.children {
        None => {
            assert(t.entries() =~= t.bucket@);
        },
        Some(q) => {
            lemma_entries_within(q.q0, b);
            lemma_entries_within(q.q1, b);
            lemma_entries_within(q.q2, b);
            lemma_entries_within(q.q3, b);
            let bl = t.bucket@.len() as int;
            let e0 = q.q0.entries();
            let e1 = q.q1.entries();
            let e2 = q.q2.entries();
            let e3 = q.q3.entries();
            assert forall|k: int| 0 <= k < t.entries().len() implies b.contains_spec(
                (#[trigger] t.entries()[k]).0.x as int,
                t.entries()[k].0.y as int,
            ) by {
                if k < bl {
                    assert(t.entries()[k] == t.bucket@[k]);
                } else {
                    let k2 = k - bl;
                    if k2 < e0.len() {
                        assert(t.entries()[k] == e0[k2]);
                    } else if k2 < e0.len() + e1.len() {
                        assert(t.entries()[k] == e1[k2 - e0.len()]);
                    } else if k2 < e0.len() + e1.len() + e2.len() {
                        assert(t.entries()[k] == e2[k2 - e0.len() - e1.len()]);
                    } else {
                        assert(t.entries()[k] == e3[k2 - e0.len() - e1.len() - e2.len()]);
                    }
                }
            }
        },
    }
}

/// A query never invents a payload: whatever it returns is stored in the
/// tree.
pub proof fn lemma_query_sound(t: QuadTree, range: Box2d, p: u64)
    requires
        t.query_spec(range).contains(p),
    ensures
        t.payloads().contains(p),
    decreases t,
{
    let f = |i: int, e: (Vec2, u64)| e.1;
    let bmap = t.bucket@.map(f);
    match t.children {
        None => {
            lemma_concat_contains(bmap, Seq::<u64>::empty(), p);
            assert(t.entries() =~= t.bucket@);
        },
        Some(q) => {
            let c = q.q0.query_spec(range) + q.q1.query_spec(range) + q.q2.query_spec(range)
                + q.q3.query_spec(range);
            lemma_concat_contains(bmap, c, p);
            lemma_concat_contains(q.q0.query_spec(range) + q.q1.query_spec(range)
                + q.q2.query_spec(range), q.q3.query_spec(range), p);
            lemma_concat_contains(q.q0.query_spec(range) + q.q1.query_spec(range),
                q.q2.query_spec(range), p);
            lemma_concat_contains(q.q0.query_spec(range), q.q1.query_spec(range), p);
            if q.q0.query_spec(range).contains(p) {
                lemma_query_sound(q.q0, range, p);
            }
            if q.q1.query_spec(range).contains(p) {
                lemma_query_sound(q.q1, range, p);
            }
            if q.q2.query_spec(range).contains(p) {
                lemma_query_sound(q.q2, range, p);
            }
            if q.q3.query_spec(range).contains(p) {
                lemma_query_sound(q.q3, range, p);
            }
            let rest = q.q0.entries() + q.q1.entries() + q.q2.entries() + q.q3.entries();
            lemma_map_concat(t.bucket@, rest);
            lemma_map_concat(q.q0.entries() + q.q1.entries() + q.q2.entries(), q.q3.entries());
            lemma_map_concat(q.q0.entries() + q.q1.entries(), q.q2.entries());
            lemma_map_concat(q.q0.entries(), q.q1.entries());
            lemma_concat_contains(t.bucket@.map(f), rest.map(f), p);
            lemma_concat_contains((q.q0.entries() + q.q1.entries() + q.q2.entries()).map(f),
                q.q3.entries().map(f), p);
            lemma_concat_contains((q.q0.entries() + q.q1.entries()).map(f),
                q.q2.entries().map(f), p);
            lemma_concat_contains(q.q0.entries().map(f), q.q1.entries().map(f), p);
        },
    }
}

/// No false negatives: a stored entry whose position lies in the query range
/// is always returned.
pub proof fn lemma_query_complete(t: QuadTree, range: Box2d, en: (Vec2, u64))
    requires
        t.wf(),
        t.entries().contains(en),
        range.contains_spec(en.0.x as int, en.0.y as int),
    ensures
        t.query_spec(range).contains(en.1),
    decreases t,
{
    let f = |i: int, e: (Vec2, u64)| e.1;
    lemma_entries_within(t, t.boundary);
    let k = choose|k: int| 0 <= k < t.entries().len() && t.entries()[k] == en;
    assert(t.boundary.contains_spec(en.0.x as int, en.0.y as int));
    crate::bbox::lemma_common_point_intersects(t.boundary, range, en.0.x as int, en.0.y as int);
    let bmap = t.bucket@.map(f);
    match t.children {
        None => {
            assert(t.entries() =~= t.bucket@);
            assert(bmap[k] == en.1);
            lemma_concat_contains(bmap, Seq::<u64>::empty(), en.1);
        },
        Some(q) => {
            let rest = q.q0.entries() + q.q1.entries() + q.q2.entries() + q.q3.entries();
            lemma_concat_contains(t.bucket@, rest, en);
            lemma_concat_contains(q.q0.entries() + q.q1.entries() + q.q2.entries(),
                q.q3.entries(), en);
            lemma_concat_contains(q.q0.entries() + q.q1.entries(), q.q2.entries(), en);
            lemma_concat_contains(q.q0.entries(), q.q1.entries(), en);
            let c = q.q0.query_spec(range) + q.q1.query_spec(range) + q.q2.query_spec(range)
                + q.q3.query_spec(range);
            if t.bucket@.contains(en) {
                let j = choose|j: int| 0 <= j < t.bucket@.len() && t.bucket@[j] == en;
                assert(bmap[j] == en.1);
                lemma_concat_contains(bmap, c, en.1);
            } else {
                if q.q0.entries().contains(en) {
                    lemma_query_complete(q.q0, range, en);
                } else if q.q1.entries().contains(en) {
                    lemma_query_complete(q.q1, range, en);
                } else if q.q2.entries().contains(en) {
                    lemma_query_complete(q.q2, range, en);
                } else {
                    lemma_query_complete(q.q3, range, en);
                }
                lemma_concat_contains(q.q0.query_spec(range), q.q1.query_spec(range), en.1);
                lemma_concat_contains(q.q0.query_spec(range) + q.q1.query_spec(range),
                    q.q2.query_spec(range), en.1);
                lemma_concat_contains(q.q0.query_spec(range) + q.q1.query_spec(range)
                    + q.q2.query_spec(range), q.q3.query_spec(range), en.1);
                lemma_concat_contains(bmap, c, en.1);
            }
        },
    }
}

/// Querying with the root's own boundary returns every stored payload: the
/// spatial index loses nothing that was accepted into it.
pub proof fn lemma_root_query_complete(t: QuadTree)
    requires
        t.wf(),
    ensures
        forall|k: int|
            0 <= k < t.entries().len() ==> t.query_spec(t.boundary).contains(
                (#[trigger] t.entries()[k]).1,
            ),
{
    lemma_entries_within(t, t.boundary);
    assert forall|k: int| 0 <= k < t.entries().len() implies t.query_spec(t.boundary).contains(
        (#[trigger] t.entries()[k]).1,
    ) by {
        lemma_query_complete(t, t.boundary, t.entries()[k]);
    }
}

/// A fresh quadrant child that has just received its first entry, lying in
/// its boundary, is well formed and stays within any box holding that entry.
proof fn lemma_fresh_child(t_old: QuadTree, t_new: QuadTree, e: (Vec2, u64))
    requires
        t_old.wf(),
        t_old.bucket@ == Seq::<(Vec2, u64)>::empty(),
        t_old.children.is_none(),
        t_new.boundary == t_old.boundary,
        t_new.capacity == t_old.capacity,
        t_new.bucket@ == t_old.bucket@.push(e),
        t_new.children == t_old.children,
        t_old.boundary.contains_spec(e.0.x as int, e.0.y as int),
    ensures
        t_new.wf(),
        t_new.entries() == seq![e],
        forall|b: Box2d|
            b.contains_spec(e.0.x as int, e.0.y as int) ==> #[trigger] t_new.all_within(b),
{
    assert(t_new.entries() =~= seq![e]);
    assert forall|b: Box2d|
        b.contains_spec(e.0.x as int, e.0.y as int) implies #[trigger] t_new.all_within(b) by {
        assert(forall|k: int| 0 <= k < t_new.bucket@.len() ==> t_new.bucket@[k] == e);
    }
}

/// The multiset of a four-way concatenation is the sum of the four parts.
proof fn lemma_four_concat_multiset(
    a0: Seq<(Vec2, u64)>,
    a1: Seq<(Vec2, u64)>,
    a2: Seq<(Vec2, u64)>,
    a3: Seq<(Vec2, u64)>,
)
    ensures
        (a0 + a1 + a2 + a3).to_multiset() == a0.to_multiset().add(a1.to_multiset()).add(
            a2.to_multiset(),
        ).add(a3.to_multiset()),
{
    vstd::seq_lib::lemma_multiset_commutative(a0, a1);
    vstd::seq_lib::lemma_multiset_commutative(a0 + a1, a2);
    vstd::seq_lib::lemma_multiset_commutative(a0 + a1 + a2, a3);
}

/// The concatenation of the children's entries, empty for a leaf.
pub open spec fn rest_of(t: QuadTree) -> Seq<(Vec2, u64)> {
    match t.children {
        None => Seq::<(Vec2, u64)>::empty(),
        Some(q) => q.q0.entries() + q.q1.entries() + q.q2.entries() + q.q3.entries(),
    }
}

/// Pushing one entry onto a node's own bucket keeps every containment fact
/// that also covers the new entry.
proof fn lemma_push_all_within(t_old: QuadTree, t_new: QuadTree, e: (Vec2, u64), b: Box2d)
    requires
        t_new.bucket@ == t_old.bucket@.push(e),
        t_new.children == t_old.children,
        t_old.all_within(b),
        b.contains_spec(e.0.x as int, e.0.y as int),
    ensures
        t_new.all_within(b),
{
}

/// Appending one element to the left part of a concatenation inserts it into
/// the multiset of the whole.
proof fn lemma_concat_multiset_insert(a: Seq<(Vec2, u64)>, b: Seq<(Vec2, u64)>, e: (Vec2, u64))
    ensures
        ((a + seq![e]) + b).to_multiset() == ((a + b).to_multiset()).insert(e),
{
    broadcast use vstd::seq_lib::group_to_multiset_ensures;
    broadcast use vstd::seq_lib::lemma_multiset_commutative;

    assert(((a + seq![e]) + b).to_multiset() =~= ((a + b).to_multiset()).insert(e)) by {
        assert((a + seq![e]).to_multiset() == a.to_multiset().add(seq![e].to_multiset()));
        assert(seq![e] =~= Seq::<(Vec2, u64)>::empty().push(e));
        assert(seq![e].to_multiset() =~= Multiset::<(Vec2, u64)>::empty().insert(e));
    }
}

} // verus!
