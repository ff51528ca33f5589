use raytracer::bvh::{BVHNode, BoxKey, BvhChild, BvhError};

fn key(v: u32) -> Option<BoxKey> {
    Some(BoxKey { x: v, y: v, z: v })
}

fn collect(bvh: &BVHNode, child: BvhChild, out: &mut Vec<usize>) {
    match child {
        BvhChild::Primitive(p) => out.push(p),
        BvhChild::Node(k) => {
            let split = bvh.node(k);
            collect(bvh, split.left, out);
            collect(bvh, split.right, out);
        }
    }
}

#[test]
fn empty_scene_is_refused() {
    let keys: Vec<Option<BoxKey>> = Vec::new();
    assert_eq!(BVHNode::new(&keys).err(), Some(BvhError::EmptyScene));
}

#[test]
fn unboundable_primitive_is_refused() {
    let keys = vec![key(1), None, key(3)];
    assert_eq!(BVHNode::new(&keys).err(), Some(BvhError::Unboundable));
}

#[test]
fn single_primitive_sits_on_both_sides() {
    let bvh = BVHNode::new(&vec![key(7)]).unwrap();
    assert_eq!(bvh.node_count(), 1);
    let root = bvh.node(bvh.root());
    assert_eq!(root.left, BvhChild::Primitive(0));
    assert_eq!(root.right, BvhChild::Primitive(0));
}

#[test]
fn two_primitives_are_ordered_by_key() {
    let bvh = BVHNode::new(&vec![key(5), key(3)]).unwrap();
    assert_eq!(bvh.node_count(), 1);
    let root = bvh.node(bvh.root());
    assert_eq!(root.left, BvhChild::Primitive(1));
    assert_eq!(root.right, BvhChild::Primitive(0));
}

#[test]
fn every_primitive_is_under_the_root() {
    let keys: Vec<Option<BoxKey>> = (0..37u32).map(|i| key((i * 17) % 37)).collect();
    let bvh = BVHNode::new(&keys).unwrap();
    assert_eq!(bvh.scene_len(), 37);
    let mut seen = Vec::new();
    collect(&bvh, BvhChild::Node(bvh.root()), &mut seen);
    seen.sort();
    seen.dedup();
    assert_eq!(seen, (0..37usize).collect::<Vec<_>>());
}

#[test]
fn children_precede_parents_and_split_in_order() {
    let keys: Vec<Option<BoxKey>> = (0..20u32)
        .map(|i| Some(BoxKey { x: 100 - i, y: i * 3, z: (i * 7) % 20 }))
        .collect();
    let bvh = BVHNode::new(&keys).unwrap();
    for k in 0..bvh.node_count() {
        let split = bvh.node(k);
        assert!(split.axis < 3);
        let mut left = Vec::new();
        let mut right = Vec::new();
        for (side, out) in [(split.left, &mut left), (split.right, &mut right)] {
            if let BvhChild::Node(c) = side {
                assert!(c < k);
            }
            collect(&bvh, side, out);
        }
        for &p in &left {
            for &q in &right {
                let kp = keys[p].unwrap().on_axis(split.axis);
                let kq = keys[q].unwrap().on_axis(split.axis);
                assert!(kp <= kq);
            }
        }
    }
}

#[test]
fn three_primitives_split_one_and_two() {
    let bvh = BVHNode::new(&vec![key(9), key(1), key(4)]).unwrap();
    assert_eq!(bvh.node_count(), 3);
    let root = bvh.node(bvh.root());
    let (BvhChild::Node(l), BvhChild::Node(r)) = (root.left, root.right) else {
        panic!("both sides of the root should be nodes");
    };
    let left = bvh.node(l);
    let right = bvh.node(r);
    assert_eq!(left.left, BvhChild::Primitive(1));
    assert_eq!(left.right, BvhChild::Primitive(1));
    assert_eq!(right.left, BvhChild::Primitive(2));
    assert_eq!(right.right, BvhChild::Primitive(0));
}

fn scan(hits: &[Option<u32>]) -> Option<u32> {
    let mut best: Option<u32> = None;
    for h in hits.iter().flatten() {
        if best.map_or(true, |b| *h < b) {
            best = Some(*h);
        }
    }
    best
}

#[test]
fn closest_hit_matches_a_linear_scan() {
    let keys: Vec<Option<BoxKey>> = (0..25u32).map(|i| key((i * 11) % 25)).collect();
    let bvh = BVHNode::new(&keys).unwrap();
    let hits: Vec<Option<u32>> = (0..25u32)
        .map(|i| if i % 3 == 0 { None } else { Some(1000 - (i * 37) % 101) })
        .collect();
    let found = bvh.closest_hit(&|_k: usize| true, &|p: usize| hits[p]);
    let (p, t) = found.unwrap();
    assert_eq!(Some(t), scan(&hits));
    assert_eq!(hits[p], Some(t));
}

#[test]
fn closest_hit_skips_missed_boxes() {
    let bvh = BVHNode::new(&vec![key(1), key(2), key(3), key(4)]).unwrap();
    let hits = [Some(5u32), Some(9), Some(1), Some(7)];
    let everything = bvh.closest_hit(&|_k: usize| true, &|p: usize| hits[p]);
    assert_eq!(everything, Some((2, 1)));
    let root = bvh.root();
    let nothing = bvh.closest_hit(&|k: usize| k != root, &|p: usize| hits[p]);
    assert_eq!(nothing, None);
}

#[test]
fn closest_hit_without_hits() {
    let bvh = BVHNode::new(&vec![key(1), key(2), key(3)]).unwrap();
    assert_eq!(bvh.closest_hit(&|_k: usize| true, &|_p: usize| None), None);
}

#[test]
fn nodes_split_at_the_median() {
    let keys: Vec<Option<BoxKey>> = (0..13u32).map(|i| key(i * 5 % 13)).collect();
    let bvh = BVHNode::new(&keys).unwrap();
    assert_eq!(bvh.node(bvh.root()).size, 13);
    for k in 0..bvh.node_count() {
        let s = bvh.node(k);
        match (s.size, s.left, s.right) {
            (1, BvhChild::Primitive(a), BvhChild::Primitive(b)) => assert_eq!(a, b),
            (2, BvhChild::Primitive(a), BvhChild::Primitive(b)) => assert_ne!(a, b),
            (n, BvhChild::Node(l), BvhChild::Node(r)) => {
                assert!(n >= 3);
                assert_eq!(bvh.node(l).size, n / 2);
                assert_eq!(bvh.node(r).size, n - n / 2);
            }
            other => panic!("unexpected node shape {:?}", other),
        }
    }
}
