use raytracer::BvhNode;

fn leaves(t: &BvhNode, out: &mut Vec<usize>) {
    match t {
        BvhNode::Leaf(i) => out.push(*i),
        BvhNode::Branch(l, r) => {
            leaves(l, out);
            leaves(r, out);
        }
    }
}

fn depth(t: &BvhNode) -> usize {
    match t {
        BvhNode::Leaf(_) => 0,
        BvhNode::Branch(l, r) => 1 + depth(l).max(depth(r)),
    }
}

fn size(t: &BvhNode) -> usize {
    match t {
        BvhNode::Leaf(_) => 1,
        BvhNode::Branch(l, r) => size(l) + size(r),
    }
}

fn halved(t: &BvhNode) -> bool {
    match t {
        BvhNode::Leaf(_) => true,
        BvhNode::Branch(l, r) => {
            size(l) == (size(l) + size(r)) / 2 && halved(l) && halved(r)
        }
    }
}

#[test]
fn single_object_is_a_leaf() {
    let t = BvhNode::build(1, &|v: &Vec<usize>| v.clone()).unwrap();
    assert!(matches!(t, BvhNode::Leaf(0)));
}

#[test]
fn two_objects_make_one_branch() {
    let t = BvhNode::build(2, &|v: &Vec<usize>| v.clone()).unwrap();
    match t {
        BvhNode::Branch(l, r) => {
            assert!(matches!(*l, BvhNode::Leaf(0)));
            assert!(matches!(*r, BvhNode::Leaf(1)));
        }
        BvhNode::Leaf(_) => panic!("expected a branch"),
    }
}

#[test]
fn three_objects_put_the_smaller_half_left() {
    let t = BvhNode::build(3, &|v: &Vec<usize>| v.clone()).unwrap();
    match t {
        BvhNode::Branch(l, r) => {
            assert_eq!(size(&l), 1);
            assert_eq!(size(&r), 2);
        }
        BvhNode::Leaf(_) => panic!("expected a branch"),
    }
}

#[test]
fn every_object_appears_exactly_once() {
    for n in 1..60usize {
        let t = BvhNode::build(n, &|v: &Vec<usize>| {
            let mut w = v.clone();
            w.reverse();
            w
        })
        .unwrap();
        let mut out = Vec::new();
        leaves(&t, &mut out);
        assert_eq!(out.len(), n);
        let mut sorted = out.clone();
        sorted.sort();
        assert_eq!(sorted, (0..n).collect::<Vec<_>>());
        assert!(halved(&t));
    }
}

#[test]
fn groups_are_split_in_the_order_given() {
    // Objects sorted along an axis by the minimum corner of their boxes.
    let keys = [3.0f32, 1.0, 2.0, 0.5];
    let t = BvhNode::build(4, &|v: &Vec<usize>| {
        let mut w = v.clone();
        w.sort_by(|a, b| keys[*a].partial_cmp(&keys[*b]).unwrap());
        w
    })
    .unwrap();
    let mut out = Vec::new();
    leaves(&t, &mut out);
    assert_eq!(out, vec![3, 1, 2, 0]);
}

#[test]
fn depth_is_ceiling_of_log2() {
    let t = BvhNode::build(470, &|v: &Vec<usize>| v.clone()).unwrap();
    assert_eq!(depth(&t), 9);
    for n in 1..300usize {
        let t = BvhNode::build(n, &|v: &Vec<usize>| v.clone()).unwrap();
        let d = depth(&t) as u32;
        assert!(n <= 1usize << d);
        if d > 0 {
            assert!((1usize << (d - 1)) < n);
        }
    }
}

#[test]
fn an_order_that_loses_an_object_is_refused() {
    let t = BvhNode::build(5, &|v: &Vec<usize>| {
        let mut w = v.clone();
        w.pop();
        w
    });
    assert!(t.is_none());
}

#[test]
fn an_order_that_repeats_an_object_is_refused() {
    let t = BvhNode::build(4, &|v: &Vec<usize>| {
        let mut w = v.clone();
        let first = w[0];
        let last = w.len() - 1;
        w[last] = first;
        w
    });
    assert!(t.is_none());
}

#[test]
fn an_order_that_brings_a_stranger_is_refused() {
    let t = BvhNode::build(3, &|v: &Vec<usize>| {
        let mut w = v.clone();
        w[0] = 99;
        w
    });
    assert!(t.is_none());
}

#[test]
fn a_single_object_never_asks_for_an_order() {
    let t = BvhNode::build(1, &|_: &Vec<usize>| Vec::new()).unwrap();
    assert!(matches!(t, BvhNode::Leaf(0)));
}

#[test]
fn a_large_hierarchy_is_built() {
    let n = 20000usize;
    let t = BvhNode::build(n, &|v: &Vec<usize>| {
        let mut w = v.clone();
        w.sort_by(|a, b| (a % 97).cmp(&(b % 97)).then(a.cmp(b)));
        w
    })
    .unwrap();
    let mut out = Vec::new();
    leaves(&t, &mut out);
    out.sort();
    assert_eq!(out, (0..n).collect::<Vec<_>>());
    assert_eq!(depth(&t), 15);
}
