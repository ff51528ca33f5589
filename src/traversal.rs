use vstd::prelude::*;

use crate::bvh::{subtree_has, BVHNode, BvhChild, Split};

verus! {

/// The nearer of two hits, given by their ray parameters; on a tie, the second.
pub open spec fn nearer(a: Option<int>, b: Option<int>) -> Option<int> {
    match (a, b) {
        (Some(x), Some(y)) => if x < y {
            a
        } else {
            b
        },
        (Some(_), None) => a,
        (None, _) => b,
    }
}

/// Closest hit found under node `k` by the hierarchy's search, for one ray:
/// `box_hit(j)` says whether the ray meets the box of node `j` in the search
/// interval, `hit(p)` gives the parameter at which it meets primitive `p`, if it
/// does. A node whose box is missed gives nothing; otherwise both sides are
/// searched over the same interval and the nearer result is kept.
pub open spec fn tree_closest(
    nodes: Seq<Split>,
    k: int,
    box_hit: spec_fn(int) -> bool,
    hit: spec_fn(usize) -> Option<int>,
) -> Option<int>
    decreases k,
{
    if 0 <= k < nodes.len() && box_hit(k) {
        let l = match nodes[k].left {
            BvhChild::Primitive(p) => hit(p),
            BvhChild::Node(c) => if c < k {
                tree_closest(nodes, c as int, box_hit, hit)
            } else {
                None
            },
        };
        let r = match nodes[k].right {
            BvhChild::Primitive(p) => hit(p),
            BvhChild::Node(c) => if c < k {
                tree_closest(nodes, c as int, box_hit, hit)
            } else {
                None
            },
        };
        nearer(l, r)
    } else {
        None
    }
}

/// Closest hit found by a linear scan over the first `m` primitives, each tried
/// only below the closest parameter found so far.
pub open spec fn scan_closest(hit: spec_fn(usize) -> Option<int>, m: nat) -> Option<int>
    decreases m,
{
    if m == 0 {
        None
    } else {
        let before = scan_closest(hit, (m - 1) as nat);
        match hit((m - 1) as usize) {
            Some(t) => if before is None || t < before->Some_0 {
                Some(t)
            } else {
                before
            },
            None => before,
        }
    }
}

/// `r` is the least parameter at which the ray meets one of the primitives
/// `among`, and `None` when it meets none of them.
pub open spec fn is_closest(
    r: Option<int>,
    among: spec_fn(usize) -> bool,
    hit: spec_fn(usize) -> Option<int>,
) -> bool {
    &&& r is None <==> (forall|p: usize| among(p) ==> #[trigger] hit(p) is None)
    &&& r is Some ==> (exists|p: usize| among(p) && #[trigger] hit(p) == r)
    &&& r is Some ==> (forall|p: usize|
        among(p) && #[trigger] hit(p) is Some ==> r->Some_0 <= hit(p)->Some_0)
}

proof fn lemma_closest_unique(
    a: Option<int>,
    b: Option<int>,
    among: spec_fn(usize) -> bool,
    hit: spec_fn(usize) -> Option<int>,
)
    requires
        is_closest(a, among, hit),
        is_closest(b, among, hit),
    ensures
        a == b,
{
    if a is Some {
        let pa = choose|p: usize| among(p) && #[trigger] hit(p) == a;
        assert(b is Some);
        let pb = choose|p: usize| among(p) && #[trigger] hit(p) == b;
        assert(a->Some_0 <= b->Some_0);
        assert(b->Some_0 <= a->Some_0);
    } else {
        if b is Some {
            let pb = choose|p: usize| among(p) && #[trigger] hit(p) == b;
        }
    }
}

/// The nearer of the closest hits of two groups is the closest hit of both.
proof fn lemma_nearer_union(
    l: Option<int>,
    r: Option<int>,
    in_l: spec_fn(usize) -> bool,
    in_r: spec_fn(usize) -> bool,
    hit: spec_fn(usize) -> Option<int>,
)
    requires
        is_closest(l, in_l, hit),
        is_closest(r, in_r, hit),
    ensures
        is_closest(nearer(l, r), |p: usize| in_l(p) || in_r(p), hit),
{
    let both = |p: usize| in_l(p) || in_r(p);
    let n = nearer(l, r);
    if l is Some {
        let p = choose|p: usize| in_l(p) && #[trigger] hit(p) == l;
        assert(both(p) && hit(p) is Some);
    }
    if r is Some {
        let p = choose|p: usize| in_r(p) && #[trigger] hit(p) == r;
        assert(both(p) && hit(p) is Some);
    }
    if n is Some {
        if n == l {
            let p = choose|p: usize| in_l(p) && #[trigger] hit(p) == l;
            assert(both(p) && hit(p) == n);
        } else {
            let p = choose|p: usize| in_r(p) && #[trigger] hit(p) == r;
            assert(both(p) && hit(p) == n);
        }
    }
    assert(n is None <==> (forall|p: usize| both(p) ==> #[trigger] hit(p) is None));
}

/// The search under node `k` finds the closest hit among the primitives of its
/// subtree, provided that no box of a node is missed by a ray that meets a
/// primitive under that node.
proof fn lemma_tree_closest(
    nodes: Seq<Split>,
    k: int,
    box_hit: spec_fn(int) -> bool,
    hit: spec_fn(usize) -> Option<int>,
)
    requires
        0 <= k < nodes.len(),
        forall|j: int, p: usize|
            0 <= j < nodes.len() && subtree_has(nodes, j, p) && #[trigger] hit(p) is Some
                ==> #[trigger] box_hit(j),
    ensures
        is_closest(tree_closest(nodes, k, box_hit, hit), |p: usize| subtree_has(nodes, k, p), hit),
    decreases k,
{
    let under = |p: usize| subtree_has(nodes, k, p);
    let in_l = |p: usize|
        match nodes[k].left {
            BvhChild::Primitive(q) => q == p,
            BvhChild::Node(c) => c < k && subtree_has(nodes, c as int, p),
        };
    let in_r = |p: usize|
        match nodes[k].right {
            BvhChild::Primitive(q) => q == p,
            BvhChild::Node(c) => c < k && subtree_has(nodes, c as int, p),
        };
    let l = match nodes[k].left {
        BvhChild::Primitive(p) => hit(p),
        BvhChild::Node(c) => if c < k {
            tree_closest(nodes, c as int, box_hit, hit)
        } else {
            None
        },
    };
    let r = match nodes[k].right {
        BvhChild::Primitive(p) => hit(p),
        BvhChild::Node(c) => if c < k {
            tree_closest(nodes, c as int, box_hit, hit)
        } else {
            None
        },
    };
    match nodes[k].left {
        BvhChild::Primitive(q) => {
            if hit(q) is Some {
                assert(in_l(q));
            }
        },
        BvhChild::Node(c) => if c < k {
            lemma_tree_closest(nodes, c as int, box_hit, hit);
            assert(is_closest(l, in_l, hit)) by {
                assert forall|p: usize| #[trigger] in_l(p) == subtree_has(nodes, c as int, p) by {}
                if l is Some {
                    let p = choose|p: usize| subtree_has(nodes, c as int, p) && #[trigger] hit(p) == l;
                    assert(in_l(p));
                }
            }
        } else {
        },
    }
    match nodes[k].right {
        BvhChild::Primitive(q) => {
            if hit(q) is Some {
                assert(in_r(q));
            }
        },
        BvhChild::Node(c) => if c < k {
            lemma_tree_closest(nodes, c as int, box_hit, hit);
            assert(is_closest(r, in_r, hit)) by {
                assert forall|p: usize| #[trigger] in_r(p) == subtree_has(nodes, c as int, p) by {}
                if r is Some {
                    let p = choose|p: usize| subtree_has(nodes, c as int, p) && #[trigger] hit(p) == r;
                    assert(in_r(p));
                }
            }
        } else {
        },
    }
    assert(is_closest(l, in_l, hit));
    assert(is_closest(r, in_r, hit));
    lemma_nearer_union(l, r, in_l, in_r, hit);
    assert forall|p: usize| #[trigger] under(p) == (in_l(p) || in_r(p)) by {}
    if box_hit(k) {
        assert(tree_closest(nodes, k, box_hit, hit) == nearer(l, r));
        assert(is_closest(nearer(l, r), |p: usize| in_l(p) || in_r(p), hit));
        assert(is_closest(nearer(l, r), under, hit));
    } else {
        assert forall|p: usize| under(p) implies #[trigger] hit(p) is None by {
            if hit(p) is Some {
                assert(box_hit(k));
            }
        }
    }
}

/// The linear scan finds the closest hit among the primitives it went over.
proof fn lemma_scan_closest(hit: spec_fn(usize) -> Option<int>, m: nat)
    requires
        m <= usize::MAX + 1,
    ensures
        is_closest(scan_closest(hit, m), |p: usize| p < m, hit),
    decreases m,
{
    if m > 0 {
        let before = scan_closest(hit, (m - 1) as nat);
        lemma_scan_closest(hit, (m - 1) as nat);
        let last = |p: usize| p == (m - 1) as usize;
        let earlier = |p: usize| p < m - 1;
        if hit((m - 1) as usize) is Some {
            assert(last((m - 1) as usize));
        }
        assert(is_closest(hit((m - 1) as usize), last, hit));
        lemma_nearer_union(before, hit((m - 1) as usize), earlier, last, hit);
        assert(scan_closest(hit, m) == nearer(before, hit((m - 1) as usize)));
        assert forall|p: usize| (p < m) == (#[trigger] earlier(p) || last(p)) by {}
        assert(is_closest(scan_closest(hit, m), |p: usize| earlier(p) || last(p), hit));
    }
}

/// For one ray, the hierarchy's search from its root finds the same closest
/// hit as a linear scan over all primitives of the scene, provided that no box
/// of a node is missed by a ray that meets a primitive under that node.
pub proof fn lemma_hierarchy_matches_scan(
    bvh: BVHNode,
    box_hit: spec_fn(int) -> bool,
    hit: spec_fn(usize) -> Option<int>,
)
    requires
        bvh.well_formed(),
        forall|j: int, p: usize|
            0 <= j < bvh@.len() && subtree_has(bvh@, j, p) && #[trigger] hit(p) is Some
                ==> #[trigger] box_hit(j),
    ensures
        tree_closest(bvh@, bvh.root_spec(), box_hit, hit) == scan_closest(hit, bvh.scene_size()),
{
    let root = bvh.root_spec();
    let n = bvh.scene_size();
    lemma_tree_closest(bvh@, root, box_hit, hit);
    lemma_scan_closest(hit, n);
    assert forall|p: usize| subtree_has(bvh@, root, p) == (p < n) by {}
    let under = |p: usize| subtree_has(bvh@, root, p);
    let first = |p: usize| p < n;
    assert(is_closest(tree_closest(bvh@, root, box_hit, hit), under, hit));
    assert(is_closest(scan_closest(hit, n), first, hit));
    assert(under =~= first);
    lemma_closest_unique(tree_closest(bvh@, root, box_hit, hit), scan_closest(hit, n), first, hit);
}

/// A test that gives one answer for each argument.
pub open spec fn box_test_steady<B: Fn(usize) -> bool>(box_test: &B) -> bool {
    forall|j: usize, a: bool, b: bool|
        call_ensures(*box_test, (j,), a) && call_ensures(*box_test, (j,), b) ==> a == b
}

/// A test that gives one answer for each argument.
pub open spec fn hit_test_steady<H: Fn(usize) -> Option<u32>>(hit_test: &H) -> bool {
    forall|p: usize, a: Option<u32>, b: Option<u32>|
        call_ensures(*hit_test, (p,), a) && call_ensures(*hit_test, (p,), b) ==> a == b
}

/// The answers of a box test, as a predicate on node indices.
pub open spec fn box_answers<B: Fn(usize) -> bool>(box_test: &B) -> spec_fn(int) -> bool {
    |j: int| call_ensures(*box_test, (j as usize,), true)
}

/// The answers of a hit test, as parameters keyed by primitive.
pub open spec fn hit_answers<H: Fn(usize) -> Option<u32>>(hit_test: &H) -> spec_fn(usize) -> Option<
    int,
> {
    |p: usize|
        if exists|t: u32| call_ensures(*hit_test, (p,), Some(t)) {
            Some((choose|t: u32| call_ensures(*hit_test, (p,), Some(t))) as int)
        } else {
            None
        }
}

pub open spec fn found_key(r: Option<(usize, u32)>) -> Option<int> {
    match r {
        Some((_, t)) => Some(t as int),
        None => None,
    }
}

proof fn lemma_hit_answer<H: Fn(usize) -> Option<u32>>(hit_test: &H, p: usize, r: Option<u32>)
    requires
        hit_test_steady(hit_test),
        call_ensures(*hit_test, (p,), r),
    ensures
        hit_answers(hit_test)(p) == match r {
            Some(t) => Some(t as int),
            None => None::<int>,
        },
{
    if let Some(t) = r {
        let u = choose|u: u32| call_ensures(*hit_test, (p,), Some(u));
        assert(call_ensures(*hit_test, (p,), Some(u)));
    } else {
        if exists|t: u32| call_ensures(*hit_test, (p,), Some(t)) {
            let u = choose|u: u32| call_ensures(*hit_test, (p,), Some(u));
            assert(call_ensures(*hit_test, (p,), Some(u)));
        }
    }
}

impl BVHNode {
    fn search<B: Fn(usize) -> bool, H: Fn(usize) -> Option<u32>>(
        &self,
        k: usize,
        box_test: &B,
        hit_test: &H,
    ) -> (r: Option<(usize, u32)>)
        requires
            self.well_formed(),
            k < self@.len(),
            forall|j: usize| j < self@.len() ==> call_requires(*box_test, (j,)),
            forall|p: usize| p < self.scene_size() ==> call_requires(*hit_test, (p,)),
            box_test_steady(box_test),
            hit_test_steady(hit_test),
        ensures
            found_key(r) == tree_closest(self@, k as int, box_answers(box_test), hit_answers(hit_test)),
            r is Some ==> hit_answers(hit_test)(r->Some_0.0) == Some(r->Some_0.1 as int),
            r is Some ==> subtree_has(self@, k as int, r->Some_0.0),
        decreases k,
    {
        let inside = box_test(k);
        if !inside {
            return None;
        }
        let split = self.node(k);
        let ghost bh = box_answers(box_test);
        let ghost h = hit_answers(hit_test);
        let l = match split.left {
            BvhChild::Primitive(p) => {
                let t = hit_test(p);
                proof { lemma_hit_answer(hit_test, p, t); }
                match t {
                    Some(t) => Some((p, t)),
                    None => None,
                }
            },
            BvhChild::Node(c) => self.search(c, box_test, hit_test),
        };
        let r = match split.right {
            BvhChild::Primitive(p) => {
                let t = hit_test(p);
                proof { lemma_hit_answer(hit_test, p, t); }
                match t {
                    Some(t) => Some((p, t)),
                    None => None,
                }
            },
            BvhChild::Node(c) => self.search(c, box_test, hit_test),
        };
        assert(bh(k as int));
        match (l, r) {
            (Some(a), Some(b)) => if a.1 < b.1 {
                l
            } else {
                r
            },
            (Some(_), None) => l,
            (None, _) => r,
        }
    }

    /// The primitive the search of the hierarchy finds nearest along one ray,
    /// with the order key of its ray parameter. `box_test(k)` says whether the
    /// ray meets the box of node `k`, `hit_test(p)` gives the order key of the
    /// parameter at which it meets primitive `p`, if it does; both are asked only
    /// of nodes and primitives of the hierarchy. A node whose box is missed is
    /// not searched further; otherwise both sides are searched and the smaller
    /// key is kept, the right side's on a tie.
    pub fn closest_hit<B: Fn(usize) -> bool, H: Fn(usize) -> Option<u32>>(
        &self,
        box_test: &B,
        hit_test: &H,
    ) -> (r: Option<(usize, u32)>)
        requires
            self.well_formed(),
            forall|j: usize| j < self@.len() ==> call_requires(*box_test, (j,)),
            forall|p: usize| p < self.scene_size() ==> call_requires(*hit_test, (p,)),
            box_test_steady(box_test),
            hit_test_steady(hit_test),
        ensures
            found_key(r) == tree_closest(
                self@,
                self.root_spec(),
                box_answers(box_test),
                hit_answers(hit_test),
            ),
            r is Some ==> r->Some_0.0 < self.scene_size() && hit_answers(hit_test)(r->Some_0.0)
                == Some(r->Some_0.1 as int),
            (forall|j: int, p: usize|
                0 <= j < self@.len() && subtree_has(self@, j, p) && #[trigger] hit_answers(
                    hit_test,
                )(p) is Some ==> #[trigger] box_answers(box_test)(j)) ==> found_key(r)
                == scan_closest(hit_answers(hit_test), self.scene_size()),
    {
        let r = self.search(self.root(), box_test, hit_test);
        proof {
            if forall|j: int, p: usize|
                0 <= j < self@.len() && subtree_has(self@, j, p) && #[trigger] hit_answers(
                    hit_test,
                )(p) is Some ==> #[trigger] box_answers(box_test)(j) {
                lemma_hierarchy_matches_scan(*self, box_answers(box_test), hit_answers(hit_test));
            }
        }
        r
    }
}

} // verus!
