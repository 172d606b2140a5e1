//! The bounding volume hierarchy: a four-way tree of boxes over bundles.
use vstd::prelude::*;
use crate::geometry::bounding_box::lemma_box_holds_hit;
use crate::geometry::bounding_box::union;
use crate::geometry::bounding_box::union_spec;
use crate::geometry::bounding_box::BoundingBox;
use crate::geometry::lattice::V3;
use crate::geometry::mesh::INVALID_INDEX;
use crate::geometry::ratio::lemma_most_less;
use crate::geometry::triangle_bundle::lemma_hit_partition;
use crate::geometry::triangle_bundle::lemma_nearer_none;
use crate::geometry::triangle_bundle::lemma_scan_concat;
use crate::geometry::triangle_bundle::lemma_scan_defined;
use crate::geometry::triangle_bundle::lemma_scan_facts;
use crate::geometry::triangle_bundle::lemma_scan_from;
use crate::geometry::triangle_bundle::scan;
use crate::geometry::triangle_bundle::BundleIntersection;
use crate::geometry::triangle_bundle::Slot;
use crate::geometry::triangle_bundle::TriangleBundle;
use crate::geometry::util::Ray;

verus! {

/// The number of children of a node.
pub const NODE_SIZE: usize = 4;

/// A child of a tree node.
#[derive(Debug)]
pub enum Node {
    Empty,
    Leaf(Box<TriangleBundle>),
    Branch(Box<BVH>),
}

/// A node of the hierarchy: four children, each with the box that bounds it.
#[derive(Debug)]
pub struct BVH {
    bounds: [BoundingBox; 4],
    first: Node,
    second: Node,
    third: Node,
    fourth: Node,
}

/// A bundle with the box that bounds it: what a tree is built from, and what
/// its leaves hold.
pub type Element = (TriangleBundle, BoundingBox);

/// The box holds the three corners of the slot's triangle, if the slot is in
/// use.
pub open spec fn slot_within(b: BoundingBox, slot: Slot) -> bool {
    slot.face.material != INVALID_INDEX ==> b.contains(slot.corners.p1@) && b.contains(
        slot.corners.p2@,
    ) && b.contains(slot.corners.p3@)
}

/// The box holds every triangle of `slots`.
pub open spec fn covers(b: BoundingBox, slots: Seq<Slot>) -> bool {
    forall|i: int| 0 <= i < slots.len() ==> slot_within(b, #[trigger] slots[i])
}

/// The bundle of an element is well formed, and its box holds its triangles.
pub open spec fn element_sound(e: Element) -> bool {
    e.0.wf() && covers(e.1, e.0@)
}

/// The slots of the bundles of `elements`, in order.
pub open spec fn element_slots(elements: Seq<Element>) -> Seq<Slot>
    decreases elements.len(),
{
    if elements.len() == 0 {
        Seq::empty()
    } else {
        element_slots(elements.drop_last()) + elements.last().0@
    }
}

impl Clone for Node {
    /// A copy of the child with all that is below it.
    fn clone(&self) -> (r: Self)
        ensures
            r == *self,
        decreases self,
    {
        match self {
            Node::Empty => Node::Empty,
            Node::Leaf(bundle) => Node::Leaf(Box::new(**bundle)),
            Node::Branch(tree) => Node::Branch(Box::new((&**tree).clone())),
        }
    }
}

impl Clone for BVH {
    /// A copy of the whole tree.
    fn clone(&self) -> (r: Self)
        ensures
            r == *self,
        decreases self,
    {
        BVH {
            bounds: self.bounds,
            first: self.first.clone(),
            second: self.second.clone(),
            third: self.third.clone(),
            fourth: self.fourth.clone(),
        }
    }
}

impl Node {
    /// The slots of all bundles below this child, in order.
    pub open spec fn slots(self) -> Seq<Slot>
        decreases self,
    {
        match self {
            Node::Empty => Seq::empty(),
            Node::Leaf(bundle) => bundle@,
            Node::Branch(tree) => tree.slots(),
        }
    }

    /// The bundles below this child, each with its box, in order; `b` is the
    /// box that the parent holds for this child.
    pub open spec fn leaves(self, b: BoundingBox) -> Seq<Element>
        decreases self,
    {
        match self {
            Node::Empty => Seq::empty(),
            Node::Leaf(bundle) => seq![(*bundle, b)],
            Node::Branch(tree) => tree.leaves(),
        }
    }

    /// Below this child every bundle is well formed and every box holds the
    /// triangles below it; `b` is the box that the parent holds for this
    /// child.
    pub open spec fn sound(self, b: BoundingBox) -> bool
        decreases self,
    {
        match self {
            Node::Empty => true,
            Node::Leaf(bundle) => bundle.wf() && covers(b, bundle@),
            Node::Branch(tree) => tree.sound() && covers(b, tree.slots()),
        }
    }

    /// Below this child every box is exactly what bounds its child: the
    /// empty box for no child, and for a subtree the union of the subtree's
    /// four boxes. `b` is the box that the parent holds for this child.
    pub open spec fn tight(self, b: BoundingBox) -> bool
        decreases self,
    {
        match self {
            Node::Empty => b == BoundingBox::empty_spec(),
            Node::Leaf(_) => true,
            Node::Branch(tree) => b == tree.extent() && tree.tight(),
        }
    }
}

impl BVH {
    /// The child in place `i`, for `i` from 0 to 3.
    pub closed spec fn child(self, i: int) -> Node {
        if i == 0 {
            self.first
        } else if i == 1 {
            self.second
        } else if i == 2 {
            self.third
        } else {
            self.fourth
        }
    }

    /// The box of the child in place `i`.
    pub closed spec fn bound(self, i: int) -> BoundingBox {
        self.bounds[i]
    }

    /// The four boxes of the node.
    pub closed spec fn boxes(self) -> Seq<BoundingBox> {
        self.bounds@
    }

    /// The union of the node's four boxes.
    pub open spec fn extent(self) -> BoundingBox {
        union_spec(self.boxes())
    }

    /// The slots of all bundles in the tree, in order.
    pub open spec fn slots(self) -> Seq<Slot>
        decreases self,
    {
        self.child(0).slots() + self.child(1).slots() + self.child(2).slots() + self.child(
            3,
        ).slots()
    }

    /// The bundles of the tree, each with its box, in order.
    pub open spec fn leaves(self) -> Seq<Element>
        decreases self,
    {
        self.child(0).leaves(self.bound(0)) + self.child(1).leaves(self.bound(1))
            + self.child(2).leaves(self.bound(2)) + self.child(3).leaves(self.bound(3))
    }

    /// Every bundle of the tree is well formed, and every box holds the
    /// triangles below it.
    pub open spec fn sound(self) -> bool
        decreases self,
    {
        &&& self.child(0).sound(self.bound(0))
        &&& self.child(1).sound(self.bound(1))
        &&& self.child(2).sound(self.bound(2))
        &&& self.child(3).sound(self.bound(3))
    }

    /// Every box of the tree is exactly what bounds its child: the empty box
    /// for no child, and for a subtree the union of the subtree's four boxes.
    pub open spec fn tight(self) -> bool
        decreases self,
    {
        &&& self.child(0).tight(self.bound(0))
        &&& self.child(1).tight(self.bound(1))
        &&& self.child(2).tight(self.bound(2))
        &&& self.child(3).tight(self.bound(3))
    }

    /// The tree is the one that is built from `elements`: its shape is that
    /// of the two stages, which depends on the number of the elements alone.
    pub open spec fn built_from(self, elements: Seq<Element>) -> bool {
        exists|row: Seq<BVH>| #[trigger] is_leaf_row(row, elements) && is_merge_of(self, row)
    }

    /// The node has no child, and four empty boxes.
    pub open spec fn is_empty_tree(self) -> bool {
        forall|i: int|
            0 <= i < 4 ==> self.child(i) == Node::Empty && self.bound(i)
                == BoundingBox::empty_spec()
    }

    /// The slots below the first `n` children.
    spec fn slots_before(self, n: int) -> Seq<Slot> {
        if n <= 0 {
            Seq::empty()
        } else if n == 1 {
            self.child(0).slots()
        } else if n == 2 {
            self.child(0).slots() + self.child(1).slots()
        } else if n == 3 {
            self.child(0).slots() + self.child(1).slots() + self.child(2).slots()
        } else {
            self.slots()
        }
    }

    /// The four boxes are those of the four places, in order.
    pub proof fn lemma_boxes(self)
        ensures
            self.boxes().len() == 4,
            forall|i: int| 0 <= i < 4 ==> self.boxes()[i] == self.bound(i),
    {
    }

    /// An empty tree.
    pub fn empty() -> (r: BVH)
        ensures
            r.is_empty_tree(),
            r.slots() == Seq::<Slot>::empty(),
            r.leaves() == Seq::<Element>::empty(),
            r.sound(),
            r.tight(),
    {
        let r = BVH {
            bounds: [BoundingBox::empty(); 4],
            first: Node::Empty,
            second: Node::Empty,
            third: Node::Empty,
            fourth: Node::Empty,
        };
        assert(r.slots() =~= Seq::<Slot>::empty());
        assert(r.leaves() =~= Seq::<Element>::empty());
        r
    }

    /// The box of the child in place `i`.
    pub fn bound_at(&self, i: usize) -> (r: BoundingBox)
        requires
            i < NODE_SIZE,
        ensures
            r == self.bound(i as int),
    {
        self.bounds[i]
    }

    /// The child in place `i`.
    pub fn child_at(&self, i: usize) -> (r: &Node)
        requires
            i < NODE_SIZE,
        ensures
            *r == self.child(i as int),
    {
        if i == 0 {
            &self.first
        } else if i == 1 {
            &self.second
        } else if i == 2 {
            &self.third
        } else {
            &self.fourth
        }
    }

    /// Puts `node` with its box `b` in place `i`.
    fn place(&mut self, i: usize, node: Node, b: BoundingBox)
        requires
            i < NODE_SIZE,
        ensures
            final(self).child(i as int) == node,
            final(self).bound(i as int) == b,
            forall|j: int|
                0 <= j < 4 && j != i ==> #[trigger] final(self).child(j) == old(self).child(j),
            forall|j: int|
                0 <= j < 4 && j != i ==> #[trigger] final(self).bound(j) == old(self).bound(j),
    {
        self.bounds[i] = b;
        if i == 0 {
            self.first = node;
        } else if i == 1 {
            self.second = node;
        } else if i == 2 {
            self.third = node;
        } else {
            self.fourth = node;
        }
    }

    /// The nearest hit of `ray` among all triangles of the tree; of hits at
    /// the same distance, the first in the order of the tree.
    ///
    /// A child is entered only where the ray enters its box before the
    /// nearest hit found so far; this skips no hit that could be nearer.
    pub fn intersect(&self, ray: Ray) -> (r: BundleIntersection)
        requires
            self.sound(),
        ensures
            r == scan(self.slots(), ray, BundleIntersection::empty_spec()),
            r.partitioned(),
            forall|i: int|
                0 <= i < self.slots().len() ==> r.distance.at_most(
                    (#[trigger] self.slots()[i]).hit(ray).distance,
                ),
        decreases self,
    {
        let mut nearest_hit = BundleIntersection::empty();
        let mut i: usize = 0;
        while i < 4
            invariant
                i <= 4,
                self.sound(),
                nearest_hit == scan(
                    self.slots_before(i as int),
                    ray,
                    BundleIntersection::empty_spec(),
                ),
            decreases 4 - i,
        {
            let ghost below = self.child(i as int).slots();
            let ghost before = self.slots_before(i as int);
            proof {
                assert(self.slots_before(i + 1) =~= before + below);
                lemma_scan_concat(before, below, ray, BundleIntersection::empty_spec());
                lemma_scan_defined(before, ray, BundleIntersection::empty_spec());
                lemma_scan_from(below, ray, nearest_hit);
                assert(self.child(i as int).sound(self.bound(i as int)));
            }
            let intersection = self.bounds[i].intersect(ray);
            if intersection.start.lt(nearest_hit.distance) {
                match self.child_at(i) {
                    Node::Empty => {},
                    Node::Leaf(bundle) => {
                        let hit = bundle.intersect(ray);
                        if hit.distance.lt(nearest_hit.distance) {
                            nearest_hit = hit;
                        }
                    },
                    Node::Branch(tree) => {
                        let hit = tree.intersect(ray);
                        if hit.distance.lt(nearest_hit.distance) {
                            nearest_hit = hit;
                        }
                    },
                }
            } else {
                proof {
                    lemma_skipped(self.bound(i as int), below, ray, nearest_hit);
                }
            }
            i = i + 1;
        }
        proof {
            lemma_scan_facts(self.slots(), ray);
        }
        nearest_hit
    }
}

/// Triangles in a box that the ray does not enter before the nearest hit so
/// far cannot give a nearer one.
pub proof fn lemma_skipped(b: BoundingBox, slots: Seq<Slot>, ray: Ray, best: BundleIntersection)
    requires
        covers(b, slots),
        !b.crossing(ray).start.less(best.distance),
    ensures
        scan(slots, ray, best) == best,
    decreases slots.len(),
{
    if slots.len() > 0 {
        let init = slots.drop_last();
        assert forall|i: int| 0 <= i < init.len() implies slot_within(b, #[trigger] init[i]) by {
            assert(init[i] == slots[i]);
        }
        lemma_skipped(b, init, ray, best);
        let s = slots.last();
        assert(slot_within(b, slots[slots.len() - 1]));
        lemma_hit_partition(s, ray);
        lemma_nearer_none(best);
        if s.struck(ray) {
            lemma_box_holds_hit(b, s.corners, ray);
            if s.hit(ray).distance.less(best.distance) {
                lemma_most_less(b.crossing(ray).start, s.hit(ray).distance, best.distance);
            }
        }
    }
}

/// The bundles of a row of trees, each with its box, in order.
pub open spec fn forest_leaves(nodes: Seq<BVH>) -> Seq<Element>
    decreases nodes.len(),
{
    if nodes.len() == 0 {
        Seq::empty()
    } else {
        forest_leaves(nodes.drop_last()) + nodes.last().leaves()
    }
}

/// Every element is sound.
pub open spec fn all_sound(elements: Seq<Element>) -> bool {
    forall|i: int| 0 <= i < elements.len() ==> element_sound(#[trigger] elements[i])
}

/// Every tree of the row is sound.
pub open spec fn forest_sound(nodes: Seq<BVH>) -> bool {
    forall|i: int| 0 <= i < nodes.len() ==> (#[trigger] nodes[i]).sound()
}

/// Every tree of the row is tight.
pub open spec fn forest_tight(nodes: Seq<BVH>) -> bool {
    forall|i: int| 0 <= i < nodes.len() ==> (#[trigger] nodes[i]).tight()
}

/// The leaves of a row of trees are those of its first tree, then those of
/// the rest.
proof fn lemma_forest_front(nodes: Seq<BVH>)
    requires
        nodes.len() > 0,
    ensures
        forest_leaves(nodes) == nodes.first().leaves() + forest_leaves(nodes.drop_first()),
    decreases nodes.len(),
{
    if nodes.len() == 1 {
        assert(nodes.drop_last() =~= Seq::<BVH>::empty());
        assert(nodes.drop_first() =~= Seq::<BVH>::empty());
        assert(forest_leaves(nodes) =~= nodes.first().leaves() + forest_leaves(
            nodes.drop_first(),
        ));
    } else {
        lemma_forest_front(nodes.drop_last());
        assert(nodes.drop_last().drop_first() =~= nodes.drop_first().drop_last());
        assert(nodes.drop_first().last() == nodes.last());
        assert(nodes.drop_last().first() == nodes.first());
        assert(forest_leaves(nodes) =~= nodes.first().leaves() + forest_leaves(
            nodes.drop_first(),
        ));
    }
}

/// The slots of two rows of elements, one after the other.
pub proof fn lemma_element_slots_concat(a: Seq<Element>, b: Seq<Element>)
    ensures
        element_slots(a + b) == element_slots(a) + element_slots(b),
    decreases b.len(),
{
    if b.len() == 0 {
        assert(a + b =~= a);
        assert(element_slots(a + b) =~= element_slots(a) + element_slots(b));
    } else {
        lemma_element_slots_concat(a, b.drop_last());
        assert((a + b).drop_last() =~= a + b.drop_last());
        assert((a + b).last() == b.last());
        assert(element_slots(a + b) =~= element_slots(a) + element_slots(b));
    }
}

/// The slots of a tree are those of its leaves' bundles, in order.
pub proof fn lemma_tree_slots(tree: BVH)
    ensures
        tree.slots() == element_slots(tree.leaves()),
    decreases tree,
{
    let l0 = tree.child(0).leaves(tree.bound(0));
    let l1 = tree.child(1).leaves(tree.bound(1));
    let l2 = tree.child(2).leaves(tree.bound(2));
    let l3 = tree.child(3).leaves(tree.bound(3));
    lemma_child_slots(tree, 0);
    lemma_child_slots(tree, 1);
    lemma_child_slots(tree, 2);
    lemma_child_slots(tree, 3);
    lemma_element_slots_concat(l0, l1);
    lemma_element_slots_concat(l0 + l1, l2);
    lemma_element_slots_concat(l0 + l1 + l2, l3);
}

/// The slots below one child are those of the leaves below it.
proof fn lemma_child_slots(tree: BVH, i: int)
    requires
        0 <= i < 4,
    ensures
        tree.child(i).slots() == element_slots(tree.child(i).leaves(tree.bound(i))),
    decreases tree, 0int,
{
    match tree.child(i) {
        Node::Empty => {},
        Node::Leaf(bundle) => {
            let one = seq![(*bundle, tree.bound(i))];
            assert(one.drop_last() =~= Seq::<Element>::empty());
            assert(element_slots(one.drop_last()) =~= Seq::<Slot>::empty());
            assert(element_slots(one) =~= bundle@);
        },
        Node::Branch(sub) => {
            lemma_tree_slots(*sub);
        },
    }
}

/// A point of one of the boxes is a point of their union.
pub proof fn lemma_union_holds(boxes: Seq<BoundingBox>, i: int, p: V3)
    requires
        0 <= i < boxes.len(),
        boxes[i].contains(p),
    ensures
        union_spec(boxes).contains(p),
    decreases boxes.len(),
{
    if i < boxes.len() - 1 {
        lemma_union_holds(boxes.drop_last(), i, p);
    }
}

/// In a sound tree the union of the four boxes holds every triangle.
pub proof fn lemma_extent_covers(tree: BVH)
    requires
        tree.sound(),
    ensures
        covers(tree.extent(), tree.slots()),
{
    tree.lemma_boxes();
    let all = tree.slots();
    let s0 = tree.child(0).slots();
    let s1 = tree.child(1).slots();
    let s2 = tree.child(2).slots();
    let s3 = tree.child(3).slots();
    assert forall|k: int| 0 <= k < all.len() implies slot_within(tree.extent(), #[trigger] all[k]) by {
        let slot = all[k];
        let j: int = if k < s0.len() {
            0
        } else if k < s0.len() + s1.len() {
            1
        } else if k < s0.len() + s1.len() + s2.len() {
            2
        } else {
            3
        };
        let below = tree.child(j).slots();
        let at: int = if j == 0 {
            k
        } else if j == 1 {
            k - s0.len()
        } else if j == 2 {
            k - s0.len() - s1.len()
        } else {
            k - s0.len() - s1.len() - s2.len()
        };
        assert(below[at] == slot);
        assert(tree.child(j).sound(tree.bound(j)));
        assert(covers(tree.bound(j), below));
        assert(slot_within(tree.bound(j), below[at]));
        if slot.face.material != INVALID_INDEX {
            lemma_union_holds(tree.boxes(), j, slot.corners.p1@);
            lemma_union_holds(tree.boxes(), j, slot.corners.p2@);
            lemma_union_holds(tree.boxes(), j, slot.corners.p3@);
        }
    }
}

/// The child is a leaf that holds `bundle`.
pub open spec fn is_leaf_of(node: Node, bundle: TriangleBundle) -> bool {
    node matches Node::Leaf(held) && *held == bundle
}

/// The child is the subtree `tree`.
pub open spec fn is_branch_of(node: Node, tree: BVH) -> bool {
    node matches Node::Branch(held) && *held == tree
}

/// The four members of `row` from place `4 * k` on, or as many as are left.
pub open spec fn four_from<T>(row: Seq<T>, k: int) -> Seq<T> {
    row.subrange(
        4 * k,
        if 4 * k + 4 <= row.len() {
            4 * k + 4
        } else {
            row.len() as int
        },
    )
}

/// The first children of `node` are leaves with the bundles of `group`, in
/// order and each with its box; the other children are empty, with empty
/// boxes.
pub open spec fn holds_elements(node: BVH, group: Seq<Element>) -> bool {
    &&& group.len() <= 4
    &&& forall|j: int| 0 <= j < group.len() ==> is_leaf_of(#[trigger] node.child(j), group[j].0)
    &&& forall|j: int| 0 <= j < group.len() ==> #[trigger] node.bound(j) == group[j].1
    &&& forall|j: int| group.len() <= j < 4 ==> #[trigger] node.child(j) == Node::Empty
    &&& forall|j: int|
        group.len() <= j < 4 ==> #[trigger] node.bound(j) == BoundingBox::empty_spec()
}

/// The first children of `node` are the trees of `group`, in order and each
/// with the union of its four boxes for its box; the other children are
/// empty, with empty boxes.
pub open spec fn holds_trees(node: BVH, group: Seq<BVH>) -> bool {
    &&& group.len() <= 4
    &&& forall|j: int| 0 <= j < group.len() ==> is_branch_of(#[trigger] node.child(j), group[j])
    &&& forall|j: int| 0 <= j < group.len() ==> #[trigger] node.bound(j) == group[j].extent()
    &&& forall|j: int| group.len() <= j < 4 ==> #[trigger] node.child(j) == Node::Empty
    &&& forall|j: int|
        group.len() <= j < 4 ==> #[trigger] node.bound(j) == BoundingBox::empty_spec()
}

/// `nodes` is what the first stage makes of `elements`: one node for every
/// four elements, in order.
pub open spec fn is_leaf_row(nodes: Seq<BVH>, elements: Seq<Element>) -> bool {
    &&& nodes.len() == (elements.len() + 3) / 4
    &&& forall|k: int|
        0 <= k < nodes.len() ==> holds_elements(#[trigger] nodes[k], four_from(elements, k))
}

/// `merged` is what one round of the second stage makes of `nodes`: one
/// node for every four nodes, in order.
pub open spec fn is_branch_row(merged: Seq<BVH>, nodes: Seq<BVH>) -> bool {
    &&& merged.len() == (nodes.len() + 3) / 4
    &&& forall|k: int|
        0 <= k < merged.len() ==> holds_trees(#[trigger] merged[k], four_from(nodes, k))
}

/// `tree` is what the second stage makes of `nodes`: the empty tree of no
/// nodes, the node itself of one node, and of more what the second stage
/// makes of the nodes of one round.
pub open spec fn is_merge_of(tree: BVH, nodes: Seq<BVH>) -> bool
    decreases nodes.len(),
{
    if nodes.len() == 0 {
        tree.is_empty_tree()
    } else if nodes.len() == 1 {
        tree == nodes[0]
    } else {
        exists|merged: Seq<BVH>|
            #[trigger] is_branch_row(merged, nodes) && merged.len() < nodes.len() && is_merge_of(
                tree,
                merged,
            )
    }
}

impl BVH {
    /// Builds the tree over a list of bundles, each with its bounding box.
    ///
    /// The leaves of the tree are the elements, in their order, and every
    /// box above them is the union of the four boxes below it. Where every
    /// element's box holds its triangles, the tree can be cast against.
    pub fn build_mesh(elements: &[Element]) -> (r: BVH)
        ensures
            r.built_from(elements@),
            r.leaves() == elements@,
            r.slots() == element_slots(elements@),
            r.tight(),
            all_sound(elements@) ==> r.sound(),
    {
        let leaves = Self::build_leaves(elements);
        let ghost row = leaves@;
        let r = Self::build_branches(leaves);
        proof {
            lemma_tree_slots(r);
            assert(is_leaf_row(row, elements@) && is_merge_of(r, row));
        }
        r
    }

    /// First stage: turns the elements into nodes, four to a node.
    fn build_leaves(elements: &[Element]) -> (nodes: Vec<BVH>)
        ensures
            is_leaf_row(nodes@, elements@),
            forest_leaves(nodes@) == elements@,
            forest_tight(nodes@),
            all_sound(elements@) ==> forest_sound(nodes@),
    {
        let mut nodes: Vec<BVH> = Vec::new();
        let mut k: usize = 0;
        while k < elements.len()
            invariant
                k <= elements.len(),
                k % 4 == 0 || k == elements.len(),
                nodes@.len() == (k + 3) / 4,
                forall|m: int|
                    0 <= m < nodes@.len() ==> holds_elements(
                        #[trigger] nodes@[m],
                        four_from(elements@, m),
                    ),
                forest_leaves(nodes@) == elements@.take(k as int),
                forest_tight(nodes@),
                all_sound(elements@) ==> forest_sound(nodes@),
            decreases elements.len() - k,
        {
            let mut leaf = Self::empty();
            let mut i: usize = 0;
            while i < 4 && i < elements.len() - k
                invariant
                    i <= 4,
                    k + i <= elements.len(),
                    forall|j: int| i <= j < 4 ==> #[trigger] leaf.child(j) == Node::Empty,
                    forall|j: int|
                        i <= j < 4 ==> #[trigger] leaf.bound(j) == BoundingBox::empty_spec(),
                    forall|j: int|
                        0 <= j < i ==> is_leaf_of(#[trigger] leaf.child(j), elements@[k + j].0),
                    forall|j: int| 0 <= j < i ==> #[trigger] leaf.bound(j) == elements@[k + j].1,
                decreases 4 - i,
            {
                let e = &elements[k + i];
                leaf.place(i, Node::Leaf(Box::new(e.0)), e.1);
                i = i + 1;
            }
            proof {
                assert(i == 4 || i == elements@.len() - k);
                let group = four_from(elements@, k as int / 4);
                assert(group =~= elements@.subrange(k as int, k + i));
                assert(holds_elements(leaf, group));
                assert forall|m: int| 0 <= m < nodes@.push(leaf).len() implies holds_elements(
                    #[trigger] nodes@.push(leaf)[m],
                    four_from(elements@, m),
                ) by {
                    if m < nodes@.len() {
                        assert(nodes@.push(leaf)[m] == nodes@[m]);
                    }
                }
                assert(leaf.leaves() =~= elements@.subrange(k as int, k + i));
                assert(elements@.take(k + i) =~= elements@.take(k as int) + leaf.leaves());
                assert(nodes@.push(leaf).drop_last() =~= nodes@);
                assert(leaf.tight());
                if all_sound(elements@) {
                    assert forall|j: int| 0 <= j < 4 implies leaf.child(j).sound(
                        leaf.bound(j),
                    ) by {
                        if j < i {
                            assert(element_sound(elements@[k + j]));
                        }
                    }
                    assert(leaf.sound());
                }
            }
            nodes.push(leaf);
            k = k + i;
        }
        proof {
            assert(elements@.take(k as int) =~= elements@);
        }
        nodes
    }

    /// Second stage: merges the nodes into bigger nodes, four to a node,
    /// until one is left.
    fn build_branches(nodes: Vec<BVH>) -> (r: BVH)
        ensures
            is_merge_of(r, nodes@),
            r.leaves() == forest_leaves(nodes@),
            forest_tight(nodes@) ==> r.tight(),
            forest_sound(nodes@) ==> r.sound(),
        decreases nodes.len(),
    {
        let mut nodes = nodes;
        if nodes.len() == 0 {
            Self::empty()
        } else if nodes.len() == 1 {
            proof {
                assert(nodes@.drop_last() =~= Seq::<BVH>::empty());
                assert(forest_leaves(nodes@.drop_last()) =~= Seq::<Element>::empty());
                assert(nodes@.last() == nodes@[0]);
                assert(forest_leaves(nodes@) =~= nodes@[0].leaves());
            }
            nodes.pop().unwrap()
        } else {
            let ghost all = nodes@;
            let merged = Self::merge_level(nodes);
            let ghost row = merged@;
            let r = Self::build_branches(merged);
            proof {
                assert(is_branch_row(row, all) && row.len() < all.len() && is_merge_of(r, row));
            }
            r
        }
    }

    /// One round of the second stage: every four nodes become the children
    /// of a new node.
    fn merge_level(nodes: Vec<BVH>) -> (merged: Vec<BVH>)
        requires
            nodes.len() >= 2,
        ensures
            is_branch_row(merged@, nodes@),
            merged.len() < nodes.len(),
            forest_leaves(merged@) == forest_leaves(nodes@),
            forest_tight(nodes@) ==> forest_tight(merged@),
            forest_sound(nodes@) ==> forest_sound(merged@),
    {
        let ghost all = nodes@;
        let mut nodes = nodes;
        // the nodes from last to first, to take them off the end in order
        let mut stack: Vec<BVH> = Vec::new();
        while nodes.len() > 0
            invariant
                nodes@ == all.take(nodes.len() as int),
                nodes.len() <= all.len(),
                stack.len() + nodes.len() == all.len(),
                forall|j: int| 0 <= j < stack.len() ==> stack@[j] == all[all.len() - 1 - j],
            decreases nodes.len(),
        {
            let node = nodes.pop().unwrap();
            stack.push(node);
        }
        let mut merged: Vec<BVH> = Vec::new();
        let ghost mut rest = all;
        while stack.len() > 0
            invariant
                all.len() >= 2,
                stack.len() == rest.len(),
                rest.len() <= all.len(),
                forall|j: int| 0 <= j < stack.len() ==> stack@[j] == rest[rest.len() - 1 - j],
                forest_leaves(merged@) + forest_leaves(rest) == forest_leaves(all),
                forest_tight(all) ==> forest_tight(merged@) && forest_tight(rest),
                forest_sound(all) ==> forest_sound(merged@) && forest_sound(rest),
                rest =~= all.skip(all.len() - rest.len()),
                rest.len() > 0 ==> all.len() - rest.len() == 4 * merged@.len(),
                merged@.len() == (all.len() - rest.len() + 3) / 4,
                forall|m: int|
                    0 <= m < merged@.len() ==> holds_trees(#[trigger] merged@[m], four_from(all, m)),
            decreases stack.len(),
        {
            let mut node = Self::empty();
            let ghost chunk_start = rest;
            let mut i: usize = 0;
            while i < 4 && stack.len() > 0
                invariant
                    i <= 4,
                    stack.len() == rest.len(),
                    rest.len() + i == chunk_start.len(),
                    rest =~= chunk_start.skip(i as int),
                    forall|j: int| 0 <= j < stack.len() ==> stack@[j] == rest[rest.len() - 1 - j],
                    forall|j: int| i <= j < 4 ==> #[trigger] node.child(j) == Node::Empty,
                    forall|j: int|
                        i <= j < 4 ==> #[trigger] node.bound(j) == BoundingBox::empty_spec(),
                    forall|j: int|
                        0 <= j < i ==> is_branch_of(#[trigger] node.child(j), chunk_start[j]),
                    forall|j: int|
                        0 <= j < i ==> #[trigger] node.bound(j) == chunk_start[j].extent(),
                decreases 4 - i,
            {
                let child = stack.pop().unwrap();
                proof {
                    assert(child == rest[0]);
                    assert(rest[0] == chunk_start[i as int]);
                    child.lemma_boxes();
                    rest = rest.drop_first();
                }
                let b = union(&child.bounds);
                assert(child.bounds@ == child.boxes());
                node.place(i, Node::Branch(Box::new(child)), b);
                i = i + 1;
            }
            proof {
                assert(i == 4 || i == chunk_start.len());
                let taken = chunk_start.take(i as int);
                assert(taken =~= four_from(all, merged@.len() as int));
                assert(holds_trees(node, taken));
                assert forall|m: int| 0 <= m < merged@.push(node).len() implies holds_trees(
                    #[trigger] merged@.push(node)[m],
                    four_from(all, m),
                ) by {
                    if m < merged@.len() {
                        assert(merged@.push(node)[m] == merged@[m]);
                    }
                }
                assert(rest =~= all.skip(all.len() - rest.len()));
                lemma_forest_take(chunk_start, i as int);
                assert(chunk_start.skip(i as int) =~= rest);
                lemma_merged_leaves(node, chunk_start, i as int);
                assert(merged@.push(node).drop_last() =~= merged@);
                assert(forest_leaves(merged@.push(node)) + forest_leaves(rest) =~= forest_leaves(
                    merged@,
                ) + (forest_leaves(taken) + forest_leaves(rest)));
                if forest_tight(all) {
                    assert forall|j: int| 0 <= j < 4 implies node.child(j).tight(
                        node.bound(j),
                    ) by {
                        if j < i {
                            assert(chunk_start[j].tight());
                        }
                    }
                    assert(node.tight());
                    assert forall|j: int| 0 <= j < rest.len() implies (#[trigger] rest[j]).tight() by {
                        assert(rest[j] == chunk_start[j + i]);
                    }
                }
                if forest_sound(all) {
                    assert forall|j: int| 0 <= j < 4 implies node.child(j).sound(
                        node.bound(j),
                    ) by {
                        if j < i {
                            assert(chunk_start[j].sound());
                            lemma_extent_covers(chunk_start[j]);
                        }
                    }
                    assert(node.sound());
                    assert forall|j: int| 0 <= j < rest.len() implies (#[trigger] rest[j]).sound() by {
                        assert(rest[j] == chunk_start[j + i]);
                    }
                }
            }
            merged.push(node);
        }
        merged
    }
}

/// The leaves of a row of trees are those of its first `n` trees, then those
/// of the others.
proof fn lemma_forest_take(nodes: Seq<BVH>, n: int)
    requires
        0 <= n <= nodes.len(),
    ensures
        forest_leaves(nodes) == forest_leaves(nodes.take(n)) + forest_leaves(nodes.skip(n)),
    decreases nodes.len() - n,
{
    if n == nodes.len() {
        assert(nodes.take(n) =~= nodes);
        assert(nodes.skip(n) =~= Seq::<BVH>::empty());
        assert(forest_leaves(nodes) =~= forest_leaves(nodes.take(n)) + forest_leaves(
            nodes.skip(n),
        ));
    } else {
        lemma_forest_take(nodes, n + 1);
        lemma_forest_front(nodes.skip(n));
        assert(nodes.skip(n).drop_first() =~= nodes.skip(n + 1));
        assert(nodes.take(n + 1).drop_last() =~= nodes.take(n));
        assert(nodes.take(n + 1).last() == nodes[n]);
        assert(forest_leaves(nodes) =~= forest_leaves(nodes.take(n)) + forest_leaves(
            nodes.skip(n),
        ));
    }
}

/// The leaves of a node whose first `n` children are the first `n` trees of
/// a row, and whose other children are empty, are the leaves of those trees.
proof fn lemma_merged_leaves(node: BVH, row: Seq<BVH>, n: int)
    requires
        0 <= n <= 4,
        n <= row.len(),
        forall|j: int| n <= j < 4 ==> node.child(j) == Node::Empty,
        forall|j: int| 0 <= j < n ==> is_branch_of(node.child(j), row[j]),
    ensures
        node.leaves() == forest_leaves(row.take(n)),
{
    let none = Seq::<BVH>::empty();
    let empty = Seq::<Element>::empty();
    assert(row.take(0) =~= none);
    assert(forest_leaves(row.take(0)) =~= empty);
    let l0 = node.child(0).leaves(node.bound(0));
    let l1 = node.child(1).leaves(node.bound(1));
    let l2 = node.child(2).leaves(node.bound(2));
    let l3 = node.child(3).leaves(node.bound(3));
    if n >= 1 {
        assert(row.take(1).drop_last() =~= row.take(0));
        assert(row.take(1).last() == row[0]);
        assert(forest_leaves(row.take(1)) =~= forest_leaves(row.take(0)) + row[0].leaves());
        assert(is_branch_of(node.child(0), row[0]));
        assert(l0 == row[0].leaves());
    } else {
        assert(node.child(0) == Node::Empty);
        assert(l0 =~= empty);
    }
    if n >= 2 {
        assert(row.take(2).drop_last() =~= row.take(1));
        assert(row.take(2).last() == row[1]);
        assert(forest_leaves(row.take(2)) =~= forest_leaves(row.take(1)) + row[1].leaves());
        assert(is_branch_of(node.child(1), row[1]));
        assert(l1 == row[1].leaves());
    } else {
        assert(node.child(1) == Node::Empty);
        assert(l1 =~= empty);
    }
    if n >= 3 {
        assert(row.take(3).drop_last() =~= row.take(2));
        assert(row.take(3).last() == row[2]);
        assert(forest_leaves(row.take(3)) =~= forest_leaves(row.take(2)) + row[2].leaves());
        assert(is_branch_of(node.child(2), row[2]));
        assert(l2 == row[2].leaves());
    } else {
        assert(node.child(2) == Node::Empty);
        assert(l2 =~= empty);
    }
    if n >= 4 {
        assert(row.take(4).drop_last() =~= row.take(3));
        assert(row.take(4).last() == row[3]);
        assert(forest_leaves(row.take(4)) =~= forest_leaves(row.take(3)) + row[3].leaves());
        assert(is_branch_of(node.child(3), row[3]));
        assert(l3 == row[3].leaves());
    } else {
        assert(node.child(3) == Node::Empty);
        assert(l3 =~= empty);
    }
    assert(node.leaves() == l0 + l1 + l2 + l3);
    assert(node.leaves() =~= forest_leaves(row.take(n)));
}

/// The boxes of a row of elements, in order.
pub open spec fn element_boxes(elements: Seq<Element>) -> Seq<BoundingBox> {
    Seq::new(elements.len(), |i: int| elements[i].1)
}

/// The union of two rows of boxes, one after the other, is the join of
/// their unions.
pub proof fn lemma_union_concat(a: Seq<BoundingBox>, b: Seq<BoundingBox>)
    ensures
        union_spec(a + b) == union_spec(a).join(union_spec(b)),
    decreases b.len(),
{
    if b.len() == 0 {
        assert(a + b =~= a);
    } else {
        lemma_union_concat(a, b.drop_last());
        assert((a + b).drop_last() =~= a + b.drop_last());
        assert((a + b).last() == b.last());
    }
}

/// In a tight tree the box of every child is exactly the union of the boxes
/// of the bundles below that child, and the empty box where there is none.
pub proof fn lemma_bound_is_union_below(tree: BVH, i: int)
    requires
        tree.tight(),
        0 <= i < 4,
    ensures
        tree.bound(i) == union_spec(element_boxes(tree.child(i).leaves(tree.bound(i)))),
    decreases tree, 0int,
{
    let b = tree.bound(i);
    let none = Seq::<BoundingBox>::empty();
    assert(tree.child(i).tight(b));
    match tree.child(i) {
        Node::Empty => {
            assert(element_boxes(tree.child(i).leaves(b)) =~= none);
        },
        Node::Leaf(bundle) => {
            let one = element_boxes(tree.child(i).leaves(b));
            assert(one =~= seq![b]);
            assert(one.drop_last() =~= none);
            assert(union_spec(none) == BoundingBox::empty_spec());
            assert(union_spec(one) == union_spec(one.drop_last()).join(b));
        },
        Node::Branch(sub) => {
            lemma_extent_is_union_below(*sub);
        },
    }
}

/// In a tight tree the union of the four boxes is exactly the union of the
/// boxes of all bundles of the tree.
pub proof fn lemma_extent_is_union_below(tree: BVH)
    requires
        tree.tight(),
    ensures
        tree.extent() == union_spec(element_boxes(tree.leaves())),
    decreases tree, 1int,
{
    tree.lemma_boxes();
    lemma_bound_is_union_below(tree, 0);
    lemma_bound_is_union_below(tree, 1);
    lemma_bound_is_union_below(tree, 2);
    lemma_bound_is_union_below(tree, 3);
    let l0 = tree.child(0).leaves(tree.bound(0));
    let l1 = tree.child(1).leaves(tree.bound(1));
    let l2 = tree.child(2).leaves(tree.bound(2));
    let l3 = tree.child(3).leaves(tree.bound(3));
    let b0 = element_boxes(l0);
    let b1 = element_boxes(l1);
    let b2 = element_boxes(l2);
    let b3 = element_boxes(l3);
    assert(element_boxes(tree.leaves()) =~= b0 + b1 + b2 + b3);
    lemma_union_concat(b0, b1);
    lemma_union_concat(b0 + b1, b2);
    lemma_union_concat(b0 + b1 + b2, b3);
    let four = tree.boxes();
    let none = Seq::<BoundingBox>::empty();
    assert(four.drop_last().drop_last().drop_last().drop_last() =~= none);
    assert(union_spec(none) == BoundingBox::empty_spec());
    assert(union_spec(four.drop_last().drop_last().drop_last()) == union_spec(none).join(four[0]));
    assert(union_spec(four.drop_last().drop_last()) == union_spec(
        four.drop_last().drop_last().drop_last(),
    ).join(four[1]));
    assert(union_spec(four.drop_last()) == union_spec(four.drop_last().drop_last()).join(four[2]));
    assert(union_spec(four) == union_spec(four.drop_last()).join(four[3]));
}

} // verus!
