use vstd::prelude::*;
use crate::geometry::{Rect, overlaps, encloses, lemma_enclosed_misses};

verus! {

/// Boxes a leaf holds before it splits, unless it is at the maximum depth.
pub const LEAF_CAPACITY: usize = 8;

/// Why an index could not be built.
#[derive(Debug, Clone, Copy, PartialEq, Eq, Structural)]
pub enum QuadError {
    /// The root extent has a width or height of zero or less.
    InvalidExtent,
}

/// A node of the tree: the boxes kept at this level, and either no children
/// or four quadrants of `region`.
pub struct QuadNode {
    pub region: Rect,
    pub items: Vec<Rect>,
    pub children: Option<Box<Quadrants>>,
}

/// The four equal quadrants of a node's region.
pub struct Quadrants {
    pub nw: QuadNode,
    pub ne: QuadNode,
    pub sw: QuadNode,
    pub se: QuadNode,
}

/// A region whose sides are ordered and whose spans fit in `i64`.
pub open spec fn region_ok(r: Rect) -> bool {
    r.min_x <= r.max_x && r.min_y <= r.max_y && r.max_x - r.min_x <= i64::MAX
        && r.max_y - r.min_y <= i64::MAX
}

pub open spec fn mid_x(r: Rect) -> int {
    r.min_x + (r.max_x - r.min_x) / 2
}

pub open spec fn mid_y(r: Rect) -> int {
    r.min_y + (r.max_y - r.min_y) / 2
}

/// Quadrant `k` of `r`: 0 north-west, 1 north-east, 2 south-west, 3 south-east
/// (north is towards larger `y`).
pub open spec fn quadrant(r: Rect, k: int) -> Rect {
    let mx = mid_x(r) as i64;
    let my = mid_y(r) as i64;
    if k == 0 {
        Rect { min_x: r.min_x, min_y: my, max_x: mx, max_y: r.max_y }
    } else if k == 1 {
        Rect { min_x: mx, min_y: my, max_x: r.max_x, max_y: r.max_y }
    } else if k == 2 {
        Rect { min_x: r.min_x, min_y: r.min_y, max_x: mx, max_y: my }
    } else {
        Rect { min_x: mx, min_y: r.min_y, max_x: r.max_x, max_y: my }
    }
}

impl QuadNode {
    /// `b` is stored in this node or below it.
    pub open spec fn holds(&self, b: Rect) -> bool
        decreases self,
    {
        self.items@.contains(b) || match self.children {
            Some(q) => q.nw.holds(b) || q.ne.holds(b) || q.sw.holds(b) || q.se.holds(b),
            None => false,
        }
    }

    /// Every box lies inside the region of the node that keeps it, and
    /// children cover the four quadrants of their parent.
    pub open spec fn wf(&self) -> bool
        decreases self,
    {
        &&& region_ok(self.region)
        &&& forall|i: int| 0 <= i < self.items@.len() ==> encloses(self.region, #[trigger] self.items@[i])
        &&& match self.children {
            Some(q) => {
                &&& q.nw.region == quadrant(self.region, 0)
                &&& q.ne.region == quadrant(self.region, 1)
                &&& q.sw.region == quadrant(self.region, 2)
                &&& q.se.region == quadrant(self.region, 3)
                &&& q.nw.wf() && q.ne.wf() && q.sw.wf() && q.se.wf()
            },
            None => true,
        }
    }

    /// No box is kept twice: not twice in one node, and not in two places.
    pub open spec fn unique(&self) -> bool
        decreases self,
    {
        &&& self.items@.no_duplicates()
        &&& match self.children {
            Some(q) => {
                &&& forall|c: Rect| #[trigger] self.items@.contains(c) ==> !q.nw.holds(c) && !q.ne.holds(c)
                    && !q.sw.holds(c) && !q.se.holds(c)
                &&& forall|c: Rect| #[trigger] q.nw.holds(c) ==> !q.ne.holds(c) && !q.sw.holds(c) && !q.se.holds(c)
                &&& forall|c: Rect| #[trigger] q.ne.holds(c) ==> !q.sw.holds(c) && !q.se.holds(c)
                &&& forall|c: Rect| #[trigger] q.sw.holds(c) ==> !q.se.holds(c)
                &&& q.nw.unique() && q.ne.unique() && q.sw.unique() && q.se.unique()
            },
            None => true,
        }
    }

    /// No node lies more than `levels` levels below this one.
    pub open spec fn levels_ok(&self, levels: int) -> bool
        decreases self,
    {
        match self.children {
            Some(q) => levels > 0 && q.nw.levels_ok(levels - 1) && q.ne.levels_ok(levels - 1)
                && q.sw.levels_ok(levels - 1) && q.se.levels_ok(levels - 1),
            None => true,
        }
    }

    /// An empty leaf over `region`.
    pub fn leaf(region: Rect) -> (r: QuadNode)
        requires
            region_ok(region),
        ensures
            r.wf(),
            r.unique(),
            r.children is None,
            r.region == region,
            forall|b: Rect| !r.holds(b),
    {
        QuadNode { region, items: Vec::new(), children: None }
    }
}

proof fn lemma_quadrants_inside(r: Rect)
    requires
        region_ok(r),
    ensures
        forall|k: int| 0 <= k < 4 ==> region_ok(#[trigger] quadrant(r, k)) && encloses(r, quadrant(r, k)),
{
}

/// What a well-formed node holds lies inside its region.
proof fn lemma_held_inside(n: &QuadNode, b: Rect)
    requires
        n.wf(),
        n.holds(b),
    ensures
        encloses(n.region, b),
    decreases n,
{
    lemma_quadrants_inside(n.region);
    if n.items@.contains(b) {
        let i = choose|i: int| 0 <= i < n.items@.len() && n.items@[i] == b;
        assert(encloses(n.region, n.items@[i]));
    } else {
        match n.children {
            Some(q) => {
                assert(encloses(n.region, quadrant(n.region, 0)));
                assert(encloses(n.region, quadrant(n.region, 1)));
                assert(encloses(n.region, quadrant(n.region, 2)));
                assert(encloses(n.region, quadrant(n.region, 3)));
                if q.nw.holds(b) {
                    lemma_held_inside(&q.nw, b);
                } else if q.ne.holds(b) {
                    lemma_held_inside(&q.ne, b);
                } else if q.sw.holds(b) {
                    lemma_held_inside(&q.sw, b);
                } else {
                    lemma_held_inside(&q.se, b);
                }
            },
            None => {},
        }
    }
}

/// Four empty leaves over the quadrants of `region`.
fn split(region: Rect) -> (r: Quadrants)
    requires
        region_ok(region),
    ensures
        r.nw.region == quadrant(region, 0) && r.nw.wf() && r.nw.unique() && r.nw.children is None,
        r.ne.region == quadrant(region, 1) && r.ne.wf() && r.ne.unique() && r.ne.children is None,
        r.sw.region == quadrant(region, 2) && r.sw.wf() && r.sw.unique() && r.sw.children is None,
        r.se.region == quadrant(region, 3) && r.se.wf() && r.se.unique() && r.se.children is None,
        forall|b: Rect| !r.nw.holds(b) && !r.ne.holds(b) && !r.sw.holds(b) && !r.se.holds(b),
{
    proof {
        lemma_quadrants_inside(region);
    }
    let mx = region.min_x + (region.max_x - region.min_x) / 2;
    let my = region.min_y + (region.max_y - region.min_y) / 2;
    Quadrants {
        nw: QuadNode::leaf(Rect { min_x: region.min_x, min_y: my, max_x: mx, max_y: region.max_y }),
        ne: QuadNode::leaf(Rect { min_x: mx, min_y: my, max_x: region.max_x, max_y: region.max_y }),
        sw: QuadNode::leaf(Rect { min_x: region.min_x, min_y: region.min_y, max_x: mx, max_y: my }),
        se: QuadNode::leaf(Rect { min_x: mx, min_y: region.min_y, max_x: region.max_x, max_y: my }),
    }
}

/// Appends `b`, which `items` lacks.
fn push_new(items: &mut Vec<Rect>, b: Rect)
    requires
        !old(items)@.contains(b),
    ensures
        final(items)@ == old(items)@.push(b),
        forall|c: Rect| #[trigger] final(items)@.contains(c) <==> old(items)@.contains(c) || c == b,
{
    let ghost before = items@;
    items.push(b);
    proof {
        assert forall|c: Rect| #[trigger] items@.contains(c) <==> before.contains(c) || c == b by {
            if before.contains(c) {
                let i = choose|i: int| 0 <= i < before.len() && before[i] == c;
                assert(items@[i] == c);
            }
            if c == b {
                assert(items@[items@.len() - 1] == c);
            }
        }
    }
}

/// The node over `region` with boxes `items` and quadrants `q`.
pub open spec fn with_quadrants(region: Rect, items: Vec<Rect>, q: Quadrants) -> QuadNode {
    QuadNode { region, items, children: Some(Box::new(q)) }
}

/// Splits a leaf over `region` holding `items` into four quadrants, moving
/// each box that fits inside one quadrant down into it.
fn spread(region: Rect, items: Vec<Rect>, depth: usize, max_depth: usize) -> (r: QuadNode)
    requires
        region_ok(region),
        depth < max_depth,
        items@.no_duplicates(),
        forall|i: int| 0 <= i < items@.len() ==> encloses(region, #[trigger] items@[i]),
    ensures
        r.wf(),
        r.unique(),
        r.levels_ok(max_depth - depth),
        r.region == region,
        r.children is Some,
        forall|c: Rect| r.holds(c) <==> items@.contains(c),
    decreases max_depth - depth, 0int,
{
    proof {
        lemma_quadrants_inside(region);
    }
    let Quadrants { mut nw, mut ne, mut sw, mut se } = split(region);
    let mut kept: Vec<Rect> = Vec::new();
    proof {
        let start = with_quadrants(region, kept, Quadrants { nw, ne, sw, se });
        assert(kept@.len() == 0);
        assert(kept@.no_duplicates());
        assert(forall|c: Rect| !kept@.contains(c));
        assert(start.items == kept);
        assert(start.children == Some(Box::new(Quadrants { nw, ne, sw, se })));
        assert(start.wf());
        assert(start.unique());
        let k = max_depth - depth - 1;
        assert(nw.levels_ok(k) && ne.levels_ok(k) && sw.levels_ok(k) && se.levels_ok(k));
        assert(start.levels_ok(max_depth - depth));
        assert forall|c: Rect| #[trigger] start.holds(c) <==> exists|j: int| 0 <= j < 0 && items@[j] == c by {
            assert(start.holds(c) == (kept@.contains(c) || nw.holds(c) || ne.holds(c) || sw.holds(c) || se.holds(c)));
        }
    }
    let mut i: usize = 0;
    while i < items.len()
        invariant
            i <= items@.len(),
            depth < max_depth,
            region_ok(region),
            items@.no_duplicates(),
            forall|k: int| 0 <= k < items@.len() ==> encloses(region, #[trigger] items@[k]),
            with_quadrants(region, kept, Quadrants { nw, ne, sw, se }).wf(),
            with_quadrants(region, kept, Quadrants { nw, ne, sw, se }).unique(),
            with_quadrants(region, kept, Quadrants { nw, ne, sw, se }).levels_ok(max_depth - depth),
            forall|c: Rect| #[trigger] with_quadrants(region, kept, Quadrants { nw, ne, sw, se }).holds(c)
                <==> exists|j: int| 0 <= j < i && items@[j] == c,
        decreases items@.len() - i,
    {
        let it = items[i];
        let ghost prev = with_quadrants(region, kept, Quadrants { nw, ne, sw, se });
        proof {
            if prev.holds(it) {
                let j = choose|j: int| 0 <= j < i && items@[j] == it;
                assert(items@[j] == items@[i as int]);
            }
            assert(!nw.holds(it) && !ne.holds(it) && !sw.holds(it) && !se.holds(it) && !kept@.contains(it));
        }
        if nw.region.encloses(&it) {
            nw = insert_node(nw, it, depth + 1, max_depth);
        } else if ne.region.encloses(&it) {
            ne = insert_node(ne, it, depth + 1, max_depth);
        } else if sw.region.encloses(&it) {
            sw = insert_node(sw, it, depth + 1, max_depth);
        } else if se.region.encloses(&it) {
            se = insert_node(se, it, depth + 1, max_depth);
        } else {
            push_new(&mut kept, it);
        }
        proof {
            let now = with_quadrants(region, kept, Quadrants { nw, ne, sw, se });
            let k = max_depth - depth - 1;
            assert(nw.levels_ok(k) && ne.levels_ok(k) && sw.levels_ok(k) && se.levels_ok(k));
            assert(now.levels_ok(max_depth - depth));
            assert forall|c: Rect| #[trigger] now.holds(c) <==> exists|j: int| 0 <= j < i + 1 && items@[j] == c by {
                assert(now.holds(c) == (kept@.contains(c) || nw.holds(c) || ne.holds(c) || sw.holds(c) || se.holds(c)));
                assert(prev.holds(c) == (prev.items@.contains(c) || prev.children->Some_0.nw.holds(c)
                    || prev.children->Some_0.ne.holds(c) || prev.children->Some_0.sw.holds(c)
                    || prev.children->Some_0.se.holds(c)));
                if c == it {
                    assert(items@[i as int] == c);
                }
            }
        }
        i = i + 1;
    }
    let r = QuadNode { region, items: kept, children: Some(Box::new(Quadrants { nw, ne, sw, se })) };
    proof {
        assert forall|c: Rect| r.holds(c) <==> items@.contains(c) by {
            assert(r.holds(c) == with_quadrants(region, r.items, Quadrants { nw, ne, sw, se }).holds(c));
        }
    }
    r
}

/// Stores `b`, which `node` does not hold yet, in `node` or below it. A
/// full leaf above `max_depth` splits first, moving its boxes down where
/// they fit; a box that fits no single quadrant stays at the node.
fn insert_node(node: QuadNode, b: Rect, depth: usize, max_depth: usize) -> (r: QuadNode)
    requires
        node.wf(),
        node.unique(),
        depth <= max_depth,
        node.levels_ok(max_depth - depth),
        encloses(node.region, b),
        !node.holds(b),
    ensures
        r.wf(),
        r.unique(),
        r.levels_ok(max_depth - depth),
        r.region == node.region,
        forall|c: Rect| r.holds(c) <==> node.holds(c) || c == b,
    decreases max_depth - depth, if node.children is None { 1int } else { 0int },
{
    if depth < max_depth && node.children.is_none() && node.items.len() >= LEAF_CAPACITY {
        let region = node.region;
        let ghost was = node;
        proof {
            assert forall|i: int| 0 <= i < node.items@.len() implies encloses(region, #[trigger] node.items@[i]) by {}
            assert forall|c: Rect| was.holds(c) <==> was.items@.contains(c) by {}
        }
        let split_node = spread(region, node.items, depth, max_depth);
        return insert_node(split_node, b, depth, max_depth);
    }
    let ghost was = node;
    let QuadNode { region, mut items, children } = node;
    proof {
        lemma_quadrants_inside(region);
    }
    let ghost old_items = items@;
    if depth < max_depth && children.is_some() {
        let Quadrants { mut nw, mut ne, mut sw, mut se } = *children.unwrap();
        let ghost (onw, one, osw, ose) = (nw, ne, sw, se);
        proof {
            assert forall|c: Rect| was.holds(c) <==> old_items.contains(c) || onw.holds(c) || one.holds(c)
                || osw.holds(c) || ose.holds(c) by {}
            let k = max_depth - depth - 1;
            assert(onw.levels_ok(k) && one.levels_ok(k) && osw.levels_ok(k) && ose.levels_ok(k));
        }
        if nw.region.encloses(&b) {
            nw = insert_node(nw, b, depth + 1, max_depth);
        } else if ne.region.encloses(&b) {
            ne = insert_node(ne, b, depth + 1, max_depth);
        } else if sw.region.encloses(&b) {
            sw = insert_node(sw, b, depth + 1, max_depth);
        } else if se.region.encloses(&b) {
            se = insert_node(se, b, depth + 1, max_depth);
        } else {
            push_new(&mut items, b);
        }
        let res = QuadNode { region, items, children: Some(Box::new(Quadrants { nw, ne, sw, se })) };
        proof {
            let k = max_depth - depth - 1;
            assert(nw.levels_ok(k) && ne.levels_ok(k) && sw.levels_ok(k) && se.levels_ok(k));
            assert(res.levels_ok(max_depth - depth));
            assert forall|c: Rect| res.holds(c) <==> was.holds(c) || c == b by {
                assert(res.holds(c) == (items@.contains(c) || nw.holds(c) || ne.holds(c) || sw.holds(c)
                    || se.holds(c)));
            }
        }
        res
    } else {
        push_new(&mut items, b);
        let res = QuadNode { region, items, children };
        proof {
            assert forall|c: Rect| res.holds(c) <==> was.holds(c) || c == b by {
                assert(res.holds(c) == (items@.contains(c) || match children {
                    Some(q) => q.nw.holds(c) || q.ne.holds(c) || q.sw.holds(c) || q.se.holds(c),
                    None => false,
                }));
            }
        }
        res
    }
}

/// Whether `b` is stored in `node` or below it, looking only into
/// quadrants that enclose `b`.
fn node_contains(node: &QuadNode, b: &Rect) -> (r: bool)
    requires
        node.wf(),
    ensures
        r == node.holds(*b),
    decreases node,
{
    let mut i: usize = 0;
    while i < node.items.len()
        invariant
            i <= node.items@.len(),
            forall|j: int| 0 <= j < i ==> node.items@[j] != *b,
        decreases node.items@.len() - i,
    {
        if node.items[i] == *b {
            return true;
        }
        i = i + 1;
    }
    match &node.children {
        Some(quads) => {
            proof {
                lemma_quadrants_inside(node.region);
            }
            if quads.nw.region.encloses(b) && node_contains(&quads.nw, b) {
                return true;
            }
            if quads.ne.region.encloses(b) && node_contains(&quads.ne, b) {
                return true;
            }
            if quads.sw.region.encloses(b) && node_contains(&quads.sw, b) {
                return true;
            }
            if quads.se.region.encloses(b) && node_contains(&quads.se, b) {
                return true;
            }
            proof {
                if quads.nw.holds(*b) { lemma_held_inside(&quads.nw, *b); }
                if quads.ne.holds(*b) { lemma_held_inside(&quads.ne, *b); }
                if quads.sw.holds(*b) { lemma_held_inside(&quads.sw, *b); }
                if quads.se.holds(*b) { lemma_held_inside(&quads.se, *b); }
            }
            false
        },
        None => false,
    }
}

/// Appends to `out` every box held at or below `node` that overlaps `q`,
/// visiting only quadrants whose region overlaps `q`.
fn query_node(node: &QuadNode, q: &Rect, out: &mut Vec<Rect>)
    requires
        node.wf(),
        node.unique(),
        old(out)@.no_duplicates(),
        forall|c: Rect| #[trigger] old(out)@.contains(c) ==> !node.holds(c),
    ensures
        forall|c: Rect| #![trigger final(out)@.contains(c)] final(out)@.contains(c) <==> old(out)@.contains(c) || (node.holds(c) && overlaps(c, *q)),
        final(out)@.no_duplicates(),
    decreases node,
{
    let ghost start = out@;
    let mut i: usize = 0;
    while i < node.items.len()
        invariant
            i <= node.items@.len(),
            node.wf(),
            node.unique(),
            out@.no_duplicates(),
            forall|c: Rect| #[trigger] start.contains(c) ==> !node.holds(c),
            forall|c: Rect| out@.contains(c) <==> start.contains(c) || (exists|j: int| 0 <= j < i
                && node.items@[j] == c) && overlaps(c, *q),
        decreases node.items@.len() - i,
    {
        let ghost before = out@;
        let item = node.items[i];
        if item.overlaps(q) {
            proof {
                assert(node.items@.contains(item));
                if before.contains(item) {
                    if !start.contains(item) {
                        let j = choose|j: int| 0 <= j < i && node.items@[j] == item;
                        assert(node.items@[j] == node.items@[i as int]);
                    }
                }
            }
            out.push(item);
            proof {
                assert forall|a: int, b: int| 0 <= a < out@.len() && 0 <= b < out@.len() && a != b
                    implies out@[a] != out@[b] by {
                    if a < before.len() && b < before.len() {
                        assert(out@[a] == before[a] && out@[b] == before[b]);
                    } else if a < before.len() {
                        assert(before.contains(out@[a]));
                    } else {
                        assert(before.contains(out@[b]));
                    }
                }
            }
        }
        proof {
            assert forall|c: Rect| out@.contains(c) <==> start.contains(c) || (exists|j: int| 0 <= j < i + 1
                && node.items@[j] == c) && overlaps(c, *q) by {
                if before.contains(c) {
                    let k = choose|k: int| 0 <= k < before.len() && before[k] == c;
                    assert(out@[k] == c);
                }
                if out@.contains(c) && !before.contains(c) {
                    assert(c == item);
                    assert(node.items@[i as int] == c);
                }
                if c == item && overlaps(c, *q) {
                    assert(out@[out@.len() - 1] == c);
                }
            }
        }
        i = i + 1;
    }
    proof {
        assert forall|c: Rect| (exists|j: int| 0 <= j < node.items@.len() && node.items@[j] == c)
            <==> node.items@.contains(c) by {}
    }
    match &node.children {
        Some(quads) => {
            let ghost mid = out@;
            proof {
                lemma_quadrants_inside(node.region);
            }
            proof {
                assert forall|c: Rect| #[trigger] out@.contains(c) implies !quads.nw.holds(c) by {
                    if !start.contains(c) {
                        assert(node.items@.contains(c));
                    }
                }
            }
            if quads.nw.region.overlaps(q) {
                query_node(&quads.nw, q, &mut *out);
            } else {
                proof { lemma_misses_all(&quads.nw, *q); }
            }
            let ghost o1 = out@;
            proof {
                assert forall|c: Rect| #[trigger] out@.contains(c) implies !quads.ne.holds(c) by {
                    if !start.contains(c) && !quads.nw.holds(c) {
                        assert(node.items@.contains(c));
                    }
                }
            }
            if quads.ne.region.overlaps(q) {
                query_node(&quads.ne, q, &mut *out);
            } else {
                proof { lemma_misses_all(&quads.ne, *q); }
            }
            let ghost o2 = out@;
            proof {
                assert forall|c: Rect| #[trigger] out@.contains(c) implies !quads.sw.holds(c) by {
                    if !start.contains(c) && !quads.nw.holds(c) && !quads.ne.holds(c) {
                        assert(node.items@.contains(c));
                    }
                }
            }
            if quads.sw.region.overlaps(q) {
                query_node(&quads.sw, q, &mut *out);
            } else {
                proof { lemma_misses_all(&quads.sw, *q); }
            }
            let ghost o3 = out@;
            proof {
                assert forall|c: Rect| #[trigger] out@.contains(c) implies !quads.se.holds(c) by {
                    if !start.contains(c) && !quads.nw.holds(c) && !quads.ne.holds(c) && !quads.sw.holds(c) {
                        assert(node.items@.contains(c));
                    }
                }
            }
            if quads.se.region.overlaps(q) {
                query_node(&quads.se, q, &mut *out);
            } else {
                proof { lemma_misses_all(&quads.se, *q); }
            }
            proof {
                assert forall|c: Rect| out@.contains(c) <==> start.contains(c) || (node.holds(c) && overlaps(c, *q)) by {
                    assert(node.holds(c) == (node.items@.contains(c) || quads.nw.holds(c) || quads.ne.holds(c)
                        || quads.sw.holds(c) || quads.se.holds(c)));
                    assert(o1.contains(c) <==> mid.contains(c) || (quads.nw.holds(c) && overlaps(c, *q)));
                    assert(o2.contains(c) <==> o1.contains(c) || (quads.ne.holds(c) && overlaps(c, *q)));
                    assert(o3.contains(c) <==> o2.contains(c) || (quads.sw.holds(c) && overlaps(c, *q)));
                    assert(out@.contains(c) <==> o3.contains(c) || (quads.se.holds(c) && overlaps(c, *q)));
                }
            }
        },
        None => {},
    }
}

/// A node whose region misses `q` holds nothing that overlaps `q`.
proof fn lemma_misses_all(n: &QuadNode, q: Rect)
    requires
        n.wf(),
        !overlaps(n.region, q),
    ensures
        forall|c: Rect| n.holds(c) ==> !overlaps(c, q),
{
    assert forall|c: Rect| n.holds(c) implies !overlaps(c, q) by {
        lemma_held_inside(n, c);
        lemma_enclosed_misses(n.region, c, q);
    }
}

/// A static broad-phase index: boxes are inserted while the world is built,
/// then only queried. Each box is stored once, at the deepest node whose
/// region encloses it, so a box that crosses a quadrant border stays above
/// the leaves. Boxes that do not fit inside the root region are kept aside
/// and checked by every query.
pub struct StaticQuadTree {
    pub root: QuadNode,
    pub outside: Vec<Rect>,
    pub max_depth: usize,
}

impl StaticQuadTree {
    /// Nodes are well formed and no deeper than `max_depth`, and each box is
    /// kept in one place only.
    pub open spec fn wf(&self) -> bool {
        &&& self.root.wf()
        &&& self.root.unique()
        &&& self.root.levels_ok(self.max_depth as int)
        &&& self.outside@.no_duplicates()
        &&& forall|c: Rect| #[trigger] self.outside@.contains(c) ==> !self.root.holds(c)
    }

    /// The boxes stored in the index.
    pub open spec fn boxes(&self) -> Set<Rect> {
        Set::new(|b: Rect| self.root.holds(b) || self.outside@.contains(b))
    }

    /// The root region of an index over `width × height`, centred on the origin.
    pub open spec fn root_region(width: int, height: int) -> Rect {
        Rect {
            min_x: (-(width / 2)) as i64,
            min_y: (-(height / 2)) as i64,
            max_x: (width - width / 2) as i64,
            max_y: (height - height / 2) as i64,
        }
    }

    /// An empty index over a `width × height` region centred on the origin,
    /// subdividing at most `max_depth` times.
    pub fn build(width: i64, height: i64, max_depth: usize) -> (r: Result<StaticQuadTree, QuadError>)
        ensures
            r is Err <==> width <= 0 || height <= 0,
            r is Err ==> r->Err_0 == QuadError::InvalidExtent,
            r matches Ok(t) ==> t.wf() && t.boxes() == Set::<Rect>::empty() && t.max_depth == max_depth
                && t.root.region == Self::root_region(width as int, height as int),
    {
        if width <= 0 || height <= 0 {
            return Err(QuadError::InvalidExtent);
        }
        let region = Rect {
            min_x: -(width / 2),
            min_y: -(height / 2),
            max_x: width - width / 2,
            max_y: height - height / 2,
        };
        let t = StaticQuadTree { root: QuadNode::leaf(region), outside: Vec::new(), max_depth };
        assert(t.boxes() =~= Set::<Rect>::empty());
        Ok(t)
    }

    /// Adds `b` to the index.
    pub fn insert(&mut self, b: Rect)
        requires
            old(self).wf(),
        ensures
            final(self).wf(),
            final(self).boxes() == old(self).boxes().insert(b),
            final(self).max_depth == old(self).max_depth,
            final(self).root.region == old(self).root.region,
    {
        let ghost old_boxes = self.boxes();
        let ghost was = *self;
        if self.contains(&b) {
            assert(self.boxes() =~= old_boxes.insert(b));
            return;
        }
        if self.root.region.encloses(&b) {
            let mut root = QuadNode::leaf(self.root.region);
            std::mem::swap(&mut root, &mut self.root);
            self.root = insert_node(root, b, 0, self.max_depth);
        } else {
            push_new(&mut self.outside, b);
        }
        assert forall|c: Rect| #![auto] self.boxes().contains(c) <==> old_boxes.insert(b).contains(c) by {
            assert(self.boxes().contains(c) == (self.root.holds(c) || self.outside@.contains(c)));
            assert(old_boxes.contains(c) == (was.root.holds(c) || was.outside@.contains(c)));
        }
        assert(self.boxes() =~= old_boxes.insert(b));
    }

    /// Whether `b` is stored in the index.
    pub fn contains(&self, b: &Rect) -> (r: bool)
        requires
            self.wf(),
        ensures
            r == self.boxes().contains(*b),
    {
        if node_contains(&self.root, b) {
            return true;
        }
        let mut i: usize = 0;
        while i < self.outside.len()
            invariant
                i <= self.outside@.len(),
                forall|j: int| 0 <= j < i ==> self.outside@[j] != *b,
            decreases self.outside@.len() - i,
        {
            if self.outside[i] == *b {
                return true;
            }
            i = i + 1;
        }
        false
    }

    /// Every stored box that overlaps `region`.
    pub fn query(&self, region: &Rect) -> (r: Vec<Rect>)
        requires
            self.wf(),
        ensures
            forall|c: Rect| #![trigger r@.contains(c)] r@.contains(c) <==> self.boxes().contains(c) && overlaps(c, *region),
            r@.no_duplicates(),
    {
        let mut out: Vec<Rect> = Vec::new();
        if self.root.region.overlaps(region) {
            query_node(&self.root, region, &mut out);
        } else {
            proof { lemma_misses_all(&self.root, *region); }
        }
        let ghost mid = out@;
        assert(forall|c: Rect| #![trigger mid.contains(c)] mid.contains(c) <==> self.root.holds(c) && overlaps(c, *region));
        let mut i: usize = 0;
        while i < self.outside.len()
            invariant
                i <= self.outside@.len(),
                self.wf(),
                out@.no_duplicates(),
                forall|c: Rect| #[trigger] mid.contains(c) ==> self.root.holds(c),
                forall|c: Rect| out@.contains(c) <==> mid.contains(c) || (exists|j: int| 0 <= j < i
                    && self.outside@[j] == c) && overlaps(c, *region),
            decreases self.outside@.len() - i,
        {
            let ghost before = out@;
            let item = self.outside[i];
            if item.overlaps(region) {
                proof {
                    assert(self.outside@.contains(item));
                    if before.contains(item) {
                        if !mid.contains(item) {
                            let j = choose|j: int| 0 <= j < i && self.outside@[j] == item;
                            assert(self.outside@[j] == self.outside@[i as int]);
                        }
                    }
                }
                out.push(item);
                proof {
                    assert forall|a: int, b: int| 0 <= a < out@.len() && 0 <= b < out@.len() && a != b
                        implies out@[a] != out@[b] by {
                        if a < before.len() && b < before.len() {
                            assert(out@[a] == before[a] && out@[b] == before[b]);
                        } else if a < before.len() {
                            assert(before.contains(out@[a]));
                        } else {
                            assert(before.contains(out@[b]));
                        }
                    }
                }
            }
            proof {
                assert forall|c: Rect| out@.contains(c) <==> mid.contains(c) || (exists|j: int| 0 <= j < i + 1
                    && self.outside@[j] == c) && overlaps(c, *region) by {
                    if before.contains(c) {
                        let k = choose|k: int| 0 <= k < before.len() && before[k] == c;
                        assert(out@[k] == c);
                    }
                    if out@.contains(c) && !before.contains(c) {
                        assert(c == item);
                        assert(self.outside@[i as int] == c);
                    }
                    if c == item && overlaps(c, *region) {
                        assert(out@[out@.len() - 1] == c);
                    }
                }
            }
            i = i + 1;
        }
        proof {
            assert forall|c: Rect| (exists|j: int| 0 <= j < self.outside@.len() && self.outside@[j] == c)
                <==> self.outside@.contains(c) by {}
            assert forall|c: Rect| #![trigger out@.contains(c)] out@.contains(c) <==> self.boxes().contains(c) && overlaps(c, *region) by {
                assert(self.boxes().contains(c) == (self.root.holds(c) || self.outside@.contains(c)));
                assert(mid.contains(c) <==> self.root.holds(c) && overlaps(c, *region));
            }
        }
        out
    }
}

} // verus!
