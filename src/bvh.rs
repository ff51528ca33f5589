use rand::Rng;
use vstd::prelude::*;

verus! {

broadcast use vstd::seq_lib::group_to_multiset_ensures;

/// Order keys of the minimum corner of a primitive's bounding box, one per axis.
///
/// Keys compare as the coordinates they stand for (see `order_key`).
#[derive(Clone, Copy, Debug, PartialEq, Eq, Structural)]
pub struct BoxKey {
    pub x: u32,
    pub y: u32,
    pub z: u32,
}

pub open spec fn key_on(k: BoxKey, axis: u32) -> u32 {
    if axis == 0 {
        k.x
    } else if axis == 1 {
        k.y
    } else {
        k.z
    }
}

impl BoxKey {
    pub fn on_axis(&self, axis: u32) -> (r: u32)
        ensures
            r == key_on(*self, axis),
    {
        if axis == 0 {
            self.x
        } else if axis == 1 {
            self.y
        } else {
            self.z
        }
    }
}

/// One side of a hierarchy node: a primitive of the scene, by its index in the
/// scene, or another node of the hierarchy, by its index in the node arena.
#[derive(Clone, Copy, Debug, PartialEq, Eq, Structural)]
pub enum BvhChild {
    Primitive(usize),
    Node(usize),
}

/// An inner node: its two children, the axis its primitives were sorted on, and
/// the number of primitives it was built over.
#[derive(Clone, Copy, Debug, PartialEq, Eq, Structural)]
pub struct Split {
    pub left: BvhChild,
    pub right: BvhChild,
    pub axis: u32,
    pub size: usize,
}

/// Why a hierarchy cannot be built over a scene.
#[derive(Clone, Copy, Debug, PartialEq, Eq, Structural)]
pub enum BvhError {
    /// The scene holds no primitive.
    EmptyScene,
    /// A primitive of the scene has no bounding box.
    Unboundable,
}

pub open spec fn child_ok(c: BvhChild, k: int, n_prims: nat) -> bool {
    match c {
        BvhChild::Primitive(p) => p < n_prims,
        BvhChild::Node(c) => c < k,
    }
}

/// Every node refers to primitives of the scene and to nodes stored before it,
/// so the arena is a forest whose roots come last, and a pass in index order
/// meets every child before its parent.
pub open spec fn arena_ok(nodes: Seq<Split>, n_prims: nat) -> bool {
    forall|k: int|
        0 <= k < nodes.len() ==> {
            &&& child_ok(#[trigger] nodes[k].left, k, n_prims)
            &&& child_ok(nodes[k].right, k, n_prims)
            &&& nodes[k].axis < 3
        }
}

/// Node `k` has the shape the build gives: over one primitive, that primitive
/// on both sides; over two, one on each side; over more, a subtree over the
/// first half (rounded down) on the left and one over the rest on the right.
pub open spec fn shape_ok(nodes: Seq<Split>, k: int) -> bool {
    let s = nodes[k];
    ||| s.size == 1 && s.left is Primitive && s.left == s.right
    ||| s.size == 2 && s.left is Primitive && s.right is Primitive
    ||| s.size >= 3 && s.left is Node && s.right is Node && s.left->Node_0 < k && s.right->Node_0
        < k && nodes[s.left->Node_0 as int].size == s.size / 2 && nodes[s.right->Node_0 as int].size
        == s.size - s.size / 2
}

/// The primitive `p` lies in the subtree rooted at node `k`.
pub open spec fn subtree_has(nodes: Seq<Split>, k: int, p: usize) -> bool
    decreases k,
{
    if 0 <= k < nodes.len() {
        let l = match nodes[k].left {
            BvhChild::Primitive(q) => q == p,
            BvhChild::Node(c) => c < k && subtree_has(nodes, c as int, p),
        };
        let r = match nodes[k].right {
            BvhChild::Primitive(q) => q == p,
            BvhChild::Node(c) => c < k && subtree_has(nodes, c as int, p),
        };
        l || r
    } else {
        false
    }
}

/// What lies under node `k` does not change when nodes are appended to the arena.
proof fn lemma_subtree_prefix(a: Seq<Split>, b: Seq<Split>, k: int, p: usize)
    requires
        a.len() <= b.len(),
        forall|i: int| 0 <= i < a.len() ==> a[i] == b[i],
        0 <= k < a.len(),
    ensures
        subtree_has(a, k, p) == subtree_has(b, k, p),
    decreases k,
{
    if let BvhChild::Node(c) = a[k].left {
        if c < k {
            lemma_subtree_prefix(a, b, c as int, p);
        }
    }
    if let BvhChild::Node(c) = a[k].right {
        if c < k {
            lemma_subtree_prefix(a, b, c as int, p);
        }
    }
}

/// The primitive `p` lies on side `c` of node `k`.
pub open spec fn side_has(nodes: Seq<Split>, k: int, c: BvhChild, p: usize) -> bool {
    match c {
        BvhChild::Primitive(q) => q == p,
        BvhChild::Node(c) => c < k && subtree_has(nodes, c as int, p),
    }
}

/// On the axis of node `k`, no primitive on its left side has a greater key
/// than a primitive on its right side.
pub open spec fn ordered_at(nodes: Seq<Split>, keys: Seq<BoxKey>, k: int) -> bool {
    forall|p: usize, q: usize|
        side_has(nodes, k, nodes[k].left, p) && side_has(nodes, k, nodes[k].right, q) ==> key_on(
            keys[p as int],
            nodes[k].axis,
        ) <= key_on(keys[q as int], nodes[k].axis)
}

proof fn lemma_ordered_prefix(a: Seq<Split>, b: Seq<Split>, keys: Seq<BoxKey>, k: int)
    requires
        a.len() <= b.len(),
        forall|i: int| 0 <= i < a.len() ==> a[i] == b[i],
        0 <= k < a.len(),
        ordered_at(a, keys, k),
    ensures
        ordered_at(b, keys, k),
{
    assert forall|p: usize, q: usize|
        side_has(b, k, b[k].left, p) && side_has(b, k, b[k].right, q) implies key_on(
            keys[p as int],
            b[k].axis,
        ) <= key_on(keys[q as int], b[k].axis) by {
        if let BvhChild::Node(c) = a[k].left {
            if c < k {
                lemma_subtree_prefix(a, b, c as int, p);
            }
        }
        if let BvhChild::Node(c) = a[k].right {
            if c < k {
                lemma_subtree_prefix(a, b, c as int, q);
            }
        }
        assert(side_has(a, k, a[k].left, p) && side_has(a, k, a[k].right, q));
    }
}

proof fn lemma_contains_split(s: Seq<usize>, m: int, p: usize)
    requires
        0 <= m <= s.len(),
    ensures
        s.contains(p) <==> (s.subrange(0, m).contains(p) || s.subrange(m, s.len() as int).contains(
            p,
        )),
{
    if s.contains(p) {
        let i = choose|i: int| 0 <= i < s.len() && s[i] == p;
        if i < m {
            assert(s.subrange(0, m)[i] == p);
        } else {
            assert(s.subrange(m, s.len() as int)[i - m] == p);
        }
    }
    if s.subrange(0, m).contains(p) {
        let i = choose|i: int| 0 <= i < m && s.subrange(0, m)[i] == p;
        assert(s[i] == p);
    }
    if s.subrange(m, s.len() as int).contains(p) {
        let i = choose|i: int|
            0 <= i < s.len() - m && s.subrange(m, s.len() as int)[i] == p;
        assert(s[m + i] == p);
    }
}

/// Lexicographic order of pairs, as std orders tuples.
pub open spec fn pair_le(a: (u32, usize), b: (u32, usize)) -> bool {
    a.0 < b.0 || (a.0 == b.0 && a.1 <= b.1)
}

/// Relies on `slice::sort`: the vector is rearranged into ascending order, where
/// tuples compare lexicographically.
#[verifier::external_body]
fn sort_pairs(v: &mut Vec<(u32, usize)>)
    ensures
        final(v)@.to_multiset() == old(v)@.to_multiset(),
        forall|i: int, j: int|
            0 <= i < j < final(v)@.len() ==> pair_le(#[trigger] final(v)@[i], #[trigger] final(v)@[j]),
{
    v.sort();
}

/// Relies on rand's `gen_range(0, 3)` on the thread's generator: a value below 3.
#[verifier::external_body]
fn random_axis() -> (r: u32)
    ensures
        r < 3,
{
    rand::thread_rng().gen_range(0u32, 3u32)
}

/// The primitives `items`, ordered by their key on `axis`.
fn sort_on_axis(items: &Vec<usize>, keys: &Vec<BoxKey>, axis: u32) -> (r: Vec<usize>)
    requires
        forall|i: int| 0 <= i < items.len() ==> items[i] < keys.len(),
    ensures
        r.len() == items.len(),
        forall|p: usize| r@.contains(p) <==> items@.contains(p),
        forall|i: int, j: int|
            0 <= i < j < r.len() ==> key_on(keys@[r@[i] as int], axis) <= key_on(
                keys@[r@[j] as int],
                axis,
            ),
{
    let mut pairs: Vec<(u32, usize)> = Vec::new();
    let mut i: usize = 0;
    while i < items.len()
        invariant
            i <= items.len(),
            forall|j: int| 0 <= j < items.len() ==> items[j] < keys.len(),
            pairs@.len() == i,
            forall|j: int|
                0 <= j < i ==> #[trigger] pairs@[j] == (key_on(keys@[items[j] as int], axis), items[j]),
        decreases items.len() - i,
    {
        let id = items[i];
        pairs.push((keys[id].on_axis(axis), id));
        i = i + 1;
    }
    let ghost before = pairs@;
    sort_pairs(&mut pairs);
    assert(pairs@.len() == before.len()) by {
        assert(pairs@.to_multiset().len() == before.to_multiset().len());
    }
    let mut r: Vec<usize> = Vec::new();
    let mut i: usize = 0;
    while i < pairs.len()
        invariant
            i <= pairs.len(),
            r@.len() == i,
            forall|j: int| 0 <= j < i ==> #[trigger] r@[j] == pairs@[j].1,
        decreases pairs.len() - i,
    {
        r.push(pairs[i].1);
        i = i + 1;
    }
    assert forall|p: usize| r@.contains(p) <==> items@.contains(p) by {
        if r@.contains(p) {
            let j = choose|j: int| 0 <= j < r.len() && r@[j] == p;
            assert(pairs@.contains(pairs@[j]));
            assert(before.to_multiset().count(pairs@[j]) > 0);
            assert(before.contains(pairs@[j]));
            let m = choose|m: int| 0 <= m < before.len() && before[m] == pairs@[j];
            assert(items[m] == p);
        }
        if items@.contains(p) {
            let m = choose|m: int| 0 <= m < items.len() && items[m] == p;
            assert(before.contains(before[m]));
            assert(pairs@.to_multiset().count(before[m]) > 0);
            assert(pairs@.contains(before[m]));
            let j = choose|j: int| 0 <= j < pairs.len() && pairs@[j] == before[m];
            assert(r@[j] == p);
        }
    }
    assert forall|i: int, j: int| 0 <= i < j < r.len() implies key_on(
        keys@[r@[i] as int],
        axis,
    ) <= key_on(keys@[r@[j] as int], axis) by {
        assert(pair_le(pairs@[i], pairs@[j]));
        assert(pairs@.contains(pairs@[i]));
        assert(before.to_multiset().count(pairs@[i]) > 0);
        assert(before.contains(pairs@[i]));
        assert(pairs@.contains(pairs@[j]));
        assert(before.to_multiset().count(pairs@[j]) > 0);
        assert(before.contains(pairs@[j]));
    }
    r
}

/// The elements of `v` from `lo` up to `hi`.
fn copy_range(v: &Vec<usize>, lo: usize, hi: usize) -> (r: Vec<usize>)
    requires
        lo <= hi <= v.len(),
    ensures
        r@ == v@.subrange(lo as int, hi as int),
{
    let mut r: Vec<usize> = Vec::new();
    let mut i: usize = lo;
    while i < hi
        invariant
            lo <= i <= hi <= v.len(),
            r@ == v@.subrange(lo as int, i as int),
        decreases hi - i,
    {
        r.push(v[i]);
        i = i + 1;
    }
    r
}

/// Builds the subtree over `items` and returns the index of its root node.
fn build_node(items: Vec<usize>, keys: &Vec<BoxKey>, nodes: &mut Vec<Split>) -> (r: usize)
    requires
        items.len() >= 1,
        forall|i: int| 0 <= i < items.len() ==> items[i] < keys.len(),
        arena_ok(old(nodes)@, keys.len() as nat),
        old(nodes).len() + 2 * items.len() <= usize::MAX,
    ensures
        arena_ok(final(nodes)@, keys.len() as nat),
        old(nodes).len() < final(nodes).len() <= old(nodes).len() + 2 * items.len() - 1,
        forall|i: int| 0 <= i < old(nodes).len() ==> final(nodes)@[i] == old(nodes)@[i],
        r == final(nodes).len() - 1,
        forall|p: usize| subtree_has(final(nodes)@, r as int, p) <==> items@.contains(p),
        forall|k: int|
            old(nodes).len() <= k < final(nodes).len() ==> ordered_at(final(nodes)@, keys@, k),
        forall|k: int| old(nodes).len() <= k < final(nodes).len() ==> shape_ok(final(nodes)@, k),
        final(nodes)@[r as int].size == items.len(),
    decreases items.len(),
{
    let axis = random_axis();
    let sorted = sort_on_axis(&items, keys, axis);
    let n = sorted.len();
    proof {
        assert forall|i: int| 0 <= i < sorted.len() implies sorted[i] < keys.len() by {
            assert(sorted@.contains(sorted@[i]));
            assert(items@.contains(sorted@[i]));
        }
    }
    if n == 1 {
        nodes.push(Split { left: BvhChild::Primitive(sorted[0]), right: BvhChild::Primitive(sorted[0]), axis, size: 1 });
        proof {
            assert forall|p: usize| sorted@.contains(p) <==> sorted@[0] == p by {
                if sorted@.contains(p) {
                    let i = choose|i: int| 0 <= i < sorted.len() && sorted@[i] == p;
                }
            }
        }
        nodes.len() - 1
    } else if n == 2 {
        nodes.push(Split { left: BvhChild::Primitive(sorted[0]), right: BvhChild::Primitive(sorted[1]), axis, size: 2 });
        proof {
            assert forall|p: usize| sorted@.contains(p) <==> (sorted@[0] == p || sorted@[1] == p) by {
                if sorted@.contains(p) {
                    let i = choose|i: int| 0 <= i < sorted.len() && sorted@[i] == p;
                }
            }
        }
        nodes.len() - 1
    } else {
        let ghost n0 = nodes@;
        let half = n / 2;
        let lo = copy_range(&sorted, 0, half);
        let hi = copy_range(&sorted, half, n);
        let li = build_node(lo, keys, nodes);
        let ghost n1 = nodes@;
        let ri = build_node(hi, keys, nodes);
        let ghost n2 = nodes@;
        nodes.push(Split { left: BvhChild::Node(li), right: BvhChild::Node(ri), axis, size: n });
        let r = nodes.len() - 1;
        proof {
            assert forall|p: usize| subtree_has(nodes@, r as int, p) <==> items@.contains(p) by {
                lemma_subtree_prefix(n1, nodes@, li as int, p);
                lemma_subtree_prefix(n2, nodes@, ri as int, p);
                lemma_contains_split(sorted@, half as int, p);
            }
            assert forall|k: int| n0.len() <= k < nodes@.len() implies shape_ok(nodes@, k) by {
                if k < n1.len() {
                    assert(shape_ok(n1, k));
                } else if k < n2.len() {
                    assert(shape_ok(n2, k));
                }
            }
            assert forall|k: int| n0.len() <= k < nodes@.len() implies ordered_at(
                nodes@,
                keys@,
                k,
            ) by {
                if k < n1.len() {
                    lemma_ordered_prefix(n1, nodes@, keys@, k);
                } else if k < n2.len() {
                    lemma_ordered_prefix(n2, nodes@, keys@, k);
                } else {
                    assert forall|p: usize, q: usize|
                        side_has(nodes@, k, nodes@[k].left, p) && side_has(
                            nodes@,
                            k,
                            nodes@[k].right,
                            q,
                        ) implies key_on(keys@[p as int], axis) <= key_on(
                        keys@[q as int],
                        axis,
                    ) by {
                        assert(k == r);
                        assert(subtree_has(nodes@, li as int, p));
                        assert(subtree_has(nodes@, ri as int, q));
                        lemma_subtree_prefix(n1, nodes@, li as int, p);
                        lemma_subtree_prefix(n2, nodes@, ri as int, q);
                        assert(lo@.contains(p));
                        assert(hi@.contains(q));
                        let i = choose|i: int| 0 <= i < lo.len() && lo@[i] == p;
                        let j = choose|j: int| 0 <= j < hi.len() && hi@[j] == q;
                        assert(sorted@[i] == p);
                        assert(sorted@[half + j] == q);
                    }
                }
            }
        }
        r
    }
}

/// The keys of a scene whose primitives all have bounding boxes.
pub open spec fn scene_boxes(keys: Seq<Option<BoxKey>>) -> Seq<BoxKey> {
    keys.map_values(|k: Option<BoxKey>| k->Some_0)
}

/// A bounding volume hierarchy over the primitives of a scene, kept as an
/// arena of inner nodes; the root is the last node.
///
/// A scene of one primitive gives a root whose two sides are that primitive;
/// two primitives give one side each; more are sorted on a randomly chosen axis
/// by the minimum corner of their bounding boxes and split at the median, each
/// half under a subtree of its own.
#[derive(Clone, Debug)]
pub struct BVHNode {
    nodes: Vec<Split>,
    scene_len: usize,
}

impl View for BVHNode {
    type V = Seq<Split>;

    closed spec fn view(&self) -> Seq<Split> {
        self.nodes@
    }
}

impl BVHNode {
    /// Number of primitives in the scene the hierarchy was built over.
    pub closed spec fn scene_size(&self) -> nat {
        self.scene_len as nat
    }

    pub open spec fn root_spec(&self) -> int {
        self@.len() - 1
    }

    /// The arena is sound and the root's subtree holds every primitive of the
    /// scene, and nothing else.
    pub open spec fn well_formed(&self) -> bool {
        &&& self@.len() >= 1
        &&& self.scene_size() <= usize::MAX
        &&& arena_ok(self@, self.scene_size())
        &&& forall|p: usize| subtree_has(self@, self.root_spec(), p) <==> p < self.scene_size()
    }

    /// Builds the hierarchy over a scene given by the bounding-box keys of its
    /// primitives, in scene order (`None` for a primitive without a box).
    pub fn new(keys: &Vec<Option<BoxKey>>) -> (r: Result<BVHNode, BvhError>)
        requires
            keys.len() <= usize::MAX / 2,
        ensures
            keys.len() == 0 ==> r == Err::<BVHNode, BvhError>(BvhError::EmptyScene),
            keys.len() > 0 && (exists|i: int| 0 <= i < keys.len() && keys@[i] is None) ==> r
                == Err::<BVHNode, BvhError>(BvhError::Unboundable),
            keys.len() > 0 && (forall|i: int| 0 <= i < keys.len() ==> keys@[i] is Some) ==> {
                &&& r is Ok
                &&& r->Ok_0.well_formed()
                &&& r->Ok_0.scene_size() == keys.len()
                &&& forall|k: int|
                    0 <= k < r->Ok_0@.len() ==> ordered_at(r->Ok_0@, scene_boxes(keys@), k)
                &&& forall|k: int| 0 <= k < r->Ok_0@.len() ==> shape_ok(r->Ok_0@, k)
                &&& r->Ok_0@[r->Ok_0.root_spec()].size == keys.len()
            },
    {
        if keys.len() == 0 {
            return Err(BvhError::EmptyScene);
        }
        let mut boxes: Vec<BoxKey> = Vec::new();
        let mut items: Vec<usize> = Vec::new();
        let mut i: usize = 0;
        while i < keys.len()
            invariant
                i <= keys.len(),
                boxes.len() == i,
                items.len() == i,
                forall|j: int| 0 <= j < i ==> keys@[j] is Some,
                forall|j: int| 0 <= j < i ==> #[trigger] items@[j] == j,
                forall|j: int| 0 <= j < i ==> #[trigger] boxes@[j] == keys@[j]->Some_0,
            decreases keys.len() - i,
        {
            match keys[i] {
                Some(k) => boxes.push(k),
                None => return Err(BvhError::Unboundable),
            }
            items.push(i);
            i = i + 1;
        }
        let mut nodes: Vec<Split> = Vec::new();
        let ghost its = items@;
        assert forall|p: usize| its.contains(p) <==> p < keys.len() by {
            if p < keys.len() {
                assert(its[p as int] == p);
            }
        }
        let root = build_node(items, &boxes, &mut nodes);
        assert(boxes@ =~= scene_boxes(keys@));
        let r = BVHNode { nodes, scene_len: keys.len() };
        assert(r.root_spec() == root);
        assert forall|p: usize| subtree_has(r@, r.root_spec(), p) <==> p < keys.len() by {
            assert(subtree_has(r@, root as int, p) <==> its.contains(p));
        }
        assert(r.well_formed());
        Ok(r)
    }

    /// Number of primitives in the scene the hierarchy was built over.
    pub fn scene_len(&self) -> (r: usize)
        ensures
            r == self.scene_size(),
    {
        self.scene_len
    }

    /// Number of inner nodes.
    pub fn node_count(&self) -> (r: usize)
        ensures
            r == self@.len(),
    {
        self.nodes.len()
    }

    /// Index of the root node.
    pub fn root(&self) -> (r: usize)
        requires
            self.well_formed(),
        ensures
            r == self.root_spec(),
    {
        self.nodes.len() - 1
    }

    /// The inner node at index `k`.
    pub fn node(&self, k: usize) -> (r: Split)
        requires
            k < self@.len(),
        ensures
            r == self@[k as int],
    {
        self.nodes[k]
    }
}

} // verus!
