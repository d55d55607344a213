use raytracer::aabb::{order_key, Point3, AABB};
use raytracer::bvh::{BVHChild, BVHNode};
use std::cmp::Ordering;

fn p(x: f64, y: f64, z: f64) -> Point3 {
    Point3::new(x.to_bits(), y.to_bits(), z.to_bits())
}

fn bx(min: (f64, f64, f64), max: (f64, f64, f64)) -> AABB {
    AABB::new(p(min.0, min.1, min.2), p(max.0, max.1, max.2))
}

#[test]
fn order_key_follows_total_order() {
    let values = [f64::NEG_INFINITY, -3.5, -1.0, -0.0, 0.0, 1e-300, 2.0, 7.25, f64::INFINITY];
    for w in values.windows(2) {
        assert!(order_key(w[0].to_bits()) < order_key(w[1].to_bits()));
    }
    assert_eq!(order_key(0.0f64.to_bits()), 0x8000_0000_0000_0000);
    assert_eq!(order_key((-0.0f64).to_bits()), 0x7fff_ffff_ffff_ffff);
}

#[test]
fn surrounding_box_is_componentwise_min_max() {
    let a = bx((0.0, -2.0, 5.0), (1.0, 3.0, 6.0));
    let b = bx((-1.0, 0.5, 4.0), (0.5, 4.0, 7.5));
    let u = AABB::surrounding_box(a, b);
    assert_eq!(u, bx((-1.0, -2.0, 4.0), (1.0, 4.0, 7.5)));
}

#[test]
fn surrounding_box_commutes_and_associates() {
    let a = bx((0.0, 0.0, 0.0), (1.0, 1.0, 1.0));
    let b = bx((-3.0, 2.0, -1.0), (-2.0, 5.0, 0.5));
    let c = bx((10.0, -10.0, 3.0), (11.0, -9.0, 4.0));
    assert_eq!(AABB::surrounding_box(a, b), AABB::surrounding_box(b, a));
    assert_eq!(
        AABB::surrounding_box(AABB::surrounding_box(a, b), c),
        AABB::surrounding_box(a, AABB::surrounding_box(b, c))
    );
}

#[test]
fn list_bounding_box_unions_all_or_none() {
    let a = bx((0.0, 0.0, 0.0), (1.0, 1.0, 1.0));
    let b = bx((2.0, -1.0, 0.5), (3.0, 0.5, 2.0));
    assert_eq!(
        AABB::list_bounding_box(&vec![Some(a), Some(b)]),
        Some(bx((0.0, -1.0, 0.0), (3.0, 1.0, 2.0)))
    );
    assert_eq!(AABB::list_bounding_box(&vec![Some(a), None]), None);
    assert_eq!(AABB::list_bounding_box(&vec![]), None);
    assert_eq!(AABB::list_bounding_box(&vec![Some(b)]), Some(b));
}

#[test]
fn box_compares_use_the_minimum_corner() {
    let a = bx((0.0, 5.0, -1.0), (1.0, 6.0, 0.0));
    let b = bx((2.0, 5.0, -2.0), (3.0, 9.0, 0.0));
    assert_eq!(BVHNode::box_x_compare(&a, &b), Ordering::Less);
    assert_eq!(BVHNode::box_y_compare(&a, &b), Ordering::Equal);
    assert_eq!(BVHNode::box_z_compare(&a, &b), Ordering::Greater);
}

fn collect(tree: &BVHNode, c: BVHChild, out: &mut Vec<usize>) {
    match c {
        BVHChild::Object(o) => out.push(o),
        BVHChild::Node(h) => {
            let n = tree.nodes[h];
            collect(tree, n.left, out);
            collect(tree, n.right, out);
        }
    }
}

fn boxes_on_a_line(n: usize) -> Vec<AABB> {
    (0..n)
        .map(|i| {
            let x = (i * 7 % n) as f64 * 3.0;
            bx((x, -(i as f64), 0.0), (x + 1.0, 1.0 - i as f64, 1.0))
        })
        .collect()
}

#[test]
fn bvh_reaches_every_object() {
    for n in [1usize, 2, 3, 5, 8, 33] {
        let boxes = boxes_on_a_line(n);
        let tree = BVHNode::new(&boxes);
        assert_eq!(tree.root + 1, tree.nodes.len());
        let mut found = Vec::new();
        collect(&tree, BVHChild::Node(tree.root), &mut found);
        found.sort();
        found.dedup();
        assert_eq!(found, (0..n).collect::<Vec<_>>());
        let all: Vec<Option<AABB>> = boxes.iter().map(|b| Some(*b)).collect();
        assert_eq!(Some(tree.nodes[tree.root]._box), AABB::list_bounding_box(&all));
    }
}

#[test]
fn bvh_single_object_node_aliases_it_twice() {
    let boxes = boxes_on_a_line(1);
    let tree = BVHNode::new(&boxes);
    assert_eq!(tree.nodes.len(), 1);
    assert_eq!(tree.nodes[0].left, BVHChild::Object(0));
    assert_eq!(tree.nodes[0].right, BVHChild::Object(0));
    assert_eq!(tree.nodes[0]._box, boxes[0]);
}

#[test]
fn bvh_pair_is_ordered_by_one_comparison() {
    // Both boxes have the same minimum on every axis but x, where the second is smaller.
    let boxes = vec![bx((4.0, 0.0, 0.0), (5.0, 1.0, 1.0)), bx((1.0, 0.0, 0.0), (2.0, 1.0, 1.0))];
    let tree = BVHNode::new(&boxes);
    assert_eq!(tree.nodes.len(), 1);
    let n = tree.nodes[0];
    // Whatever axis was drawn, the pair does not compare Less, so they are swapped.
    assert_eq!(n.left, BVHChild::Object(1));
    assert_eq!(n.right, BVHChild::Object(0));
}

#[test]
fn bvh_children_come_before_their_node() {
    let boxes = boxes_on_a_line(20);
    let tree = BVHNode::new(&boxes);
    for (i, n) in tree.nodes.iter().enumerate() {
        for c in [n.left, n.right] {
            match c {
                BVHChild::Object(o) => assert!(o < 20),
                BVHChild::Node(h) => assert!(h < i),
            }
        }
    }
}

#[test]
fn bvh_nodes_split_along_one_axis() {
    let boxes: Vec<AABB> = (0..40usize)
        .map(|i| {
            let (x, y, z) = ((i * 13 % 40) as f64, (i * 7 % 40) as f64, (i * 29 % 40) as f64);
            bx((x, y, z), (x + 0.5, y + 0.5, z + 0.5))
        })
        .collect();
    let tree = BVHNode::new(&boxes);
    let min_on = |o: usize, axis: usize| -> f64 {
        let m = boxes[o]._min;
        f64::from_bits([m.x, m.y, m.z][axis])
    };
    for n in tree.nodes.iter() {
        let (mut l, mut r) = (Vec::new(), Vec::new());
        collect(&tree, n.left, &mut l);
        collect(&tree, n.right, &mut r);
        let split = (0..3).any(|axis| {
            let lmax = l.iter().map(|&o| min_on(o, axis)).fold(f64::MIN, f64::max);
            let rmin = r.iter().map(|&o| min_on(o, axis)).fold(f64::MAX, f64::min);
            lmax <= rmin
        });
        assert!(split);
        l.sort();
        l.dedup();
        r.sort();
        r.dedup();
        assert!(l.len() <= r.len() && r.len() <= l.len() + 1);
        let (lb, rb) = (
            match n.left {
                BVHChild::Object(o) => boxes[o],
                BVHChild::Node(h) => tree.nodes[h]._box,
            },
            match n.right {
                BVHChild::Object(o) => boxes[o],
                BVHChild::Node(h) => tree.nodes[h]._box,
            },
        );
        assert_eq!(n._box, AABB::surrounding_box(lb, rb));
    }
}

#[test]
fn order_key_agrees_with_total_cmp() {
    let values = [
        f64::NAN,
        -f64::NAN,
        f64::NEG_INFINITY,
        -1e300,
        -2.5,
        -0.0,
        0.0,
        f64::MIN_POSITIVE,
        1.0,
        3.75,
        f64::MAX,
        f64::INFINITY,
    ];
    for a in values {
        for b in values {
            assert_eq!(order_key(a.to_bits()).cmp(&order_key(b.to_bits())), a.total_cmp(&b));
        }
    }
}
