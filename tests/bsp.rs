use binary_space_partition::{add_side, BspNode, Plane, PlaneCut};

/// A point on a line with a facing direction: values are ordered by position,
/// and a point splits the others into those before and after it.
#[derive(Clone, Debug, PartialEq)]
struct Plane1D(i32, bool);

impl Plane for Plane1D {
    fn cut(&self, plane: Self) -> PlaneCut<Self> {
        if self.0 == plane.0 {
            PlaneCut::Sibling(plane)
        } else if (self.0 > plane.0) == self.1 {
            PlaneCut::Cut {
                front: vec![plane],
                back: vec![],
            }
        } else {
            PlaneCut::Cut {
                front: vec![],
                back: vec![plane],
            }
        }
    }

    fn is_aligned(&self, plane: &Self) -> bool {
        self.1 == plane.1
    }
}

/// A deterministic stream of pseudo-random integers.
struct Lcg(u64);

impl Lcg {
    fn next_i32(&mut self) -> i32 {
        self.0 = self.0.wrapping_mul(6364136223846793005).wrapping_add(1442695040888963407);
        (self.0 >> 32) as u32 as i32
    }
}

#[test]
fn test_add_side() {
    let mut node_opt = None;
    let p0: Vec<Plane1D> = Vec::new();
    add_side(&mut node_opt, p0);
    assert!(node_opt.is_none());

    let p1 = Plane1D(1, true);
    add_side(&mut node_opt, vec![p1.clone()]);
    assert_eq!(node_opt.as_ref().unwrap().values, vec![p1.clone()]);
    assert!(node_opt.as_ref().unwrap().is_leaf());

    let p23 = vec![Plane1D(0, false), Plane1D(2, false)];
    add_side(&mut node_opt, p23);
    let node = node_opt.unwrap();
    assert_eq!(node.values, vec![p1.clone()]);
    assert!(node.front.is_some() && node.back.is_some());
}

#[test]
fn test_insert_depth() {
    let mut node = BspNode::new(Plane1D(0, true));
    assert_eq!(node.get_depth(), 1);
    node.insert(Plane1D(6, true));
    assert_eq!(node.get_depth(), 2);
    node.insert(Plane1D(8, true));
    assert_eq!(node.get_depth(), 3);
    node.insert(Plane1D(6, true));
    assert_eq!(node.get_depth(), 3);
    node.insert(Plane1D(-5, false));
    assert_eq!(node.get_depth(), 3);
}

#[test]
fn test_order() {
    let mut rng = Lcg(0x5eed);
    let mut node = BspNode::new(Plane1D(0, true));
    for _ in 0..100 {
        let plane = Plane1D(rng.next_i32(), true);
        node.insert(plane);
    }

    let mut out = Vec::new();
    node.order_self(&mut out);
    let mut out2 = out.clone();
    out2.sort_by_key(|p| p.0);
    assert_eq!(out, out2);
}

#[test]
fn sort_consistency_depths_and_order() {
    let mut node = BspNode::new(Plane1D(1, true));
    let mut depths = vec![node.get_depth()];
    for p in [Plane1D(6, true), Plane1D(8, true), Plane1D(6, true), Plane1D(-5, false)] {
        node.insert(p);
        depths.push(node.get_depth());
    }
    assert_eq!(depths, vec![1, 2, 3, 3, 3]);
    let mut out = Vec::new();
    node.order_self(&mut out);
    let keys: Vec<i32> = out.iter().map(|p| p.0).collect();
    assert_eq!(keys, vec![-5, 1, 6, 6, 8]);
}

#[test]
fn duplicate_becomes_sibling() {
    let mut node = BspNode::new(Plane1D(3, true));
    node.insert(Plane1D(3, true));
    node.insert(Plane1D(3, false));
    assert_eq!(node.values, vec![Plane1D(3, true), Plane1D(3, true), Plane1D(3, false)]);
    assert!(node.is_leaf());
    assert_eq!(node.get_depth(), 1);
}

#[test]
fn bootstrap_absent_slot() {
    let mut slot: Option<Box<BspNode<Plane1D>>> = None;
    add_side(&mut slot, Vec::new());
    assert!(slot.is_none());
    add_side(&mut slot, vec![Plane1D(4, true)]);
    let node = slot.unwrap();
    assert_eq!(node.values, vec![Plane1D(4, true)]);
    assert!(node.is_leaf());
    assert_eq!(node.get_depth(), 1);
}

#[test]
fn bootstrap_several_values() {
    let mut slot: Option<Box<BspNode<Plane1D>>> = None;
    add_side(&mut slot, vec![Plane1D(4, true), Plane1D(2, true), Plane1D(9, true), Plane1D(4, true)]);
    let node = slot.unwrap();
    assert_eq!(node.values, vec![Plane1D(4, true), Plane1D(4, true)]);
    assert_eq!(node.front.as_ref().unwrap().values, vec![Plane1D(2, true)]);
    assert_eq!(node.back.as_ref().unwrap().values, vec![Plane1D(9, true)]);
    assert_eq!(node.get_depth(), 2);
}

#[test]
fn branching_front_and_back() {
    let mut node = BspNode::new(Plane1D(5, true));
    node.insert(Plane1D(3, true));
    node.insert(Plane1D(7, true));
    assert_eq!(node.values, vec![Plane1D(5, true)]);
    assert!(!node.is_leaf());
    let front = node.front.as_ref().unwrap();
    let back = node.back.as_ref().unwrap();
    assert_eq!(front.values, vec![Plane1D(3, true)]);
    assert_eq!(back.values, vec![Plane1D(7, true)]);
    assert!(front.is_leaf() && back.is_leaf());
    assert_eq!(node.get_depth(), 2);
}

#[test]
fn leaf_only_when_both_children_absent() {
    let mut node = BspNode::new(Plane1D(5, true));
    assert!(node.is_leaf());
    node.insert(Plane1D(9, true));
    assert!(node.front.is_none() && node.back.is_some());
    assert!(!node.is_leaf());
}

#[test]
fn order_from_unaligned_viewpoint_reverses() {
    let mut node = BspNode::new(Plane1D(0, true));
    for k in [5, -3, 8, 1, -7] {
        node.insert(Plane1D(k, true));
    }
    let mut out = Vec::new();
    node.order(&Plane1D(100, false), &mut out);
    let keys: Vec<i32> = out.iter().map(|p| p.0).collect();
    assert_eq!(keys, vec![8, 5, 1, 0, -3, -7]);
}

#[test]
fn order_appends_after_existing_output() {
    let mut node = BspNode::new(Plane1D(2, true));
    node.insert(Plane1D(1, true));
    let mut out = vec![Plane1D(42, false)];
    node.order_self(&mut out);
    assert_eq!(out, vec![Plane1D(42, false), Plane1D(1, true), Plane1D(2, true)]);
}

#[test]
fn order_conserves_every_value() {
    let mut rng = Lcg(7);
    let mut inserted = vec![Plane1D(0, true)];
    let mut node = BspNode::new(Plane1D(0, true));
    for i in 0..40 {
        let plane = Plane1D(rng.next_i32() % 10, i % 3 == 0);
        inserted.push(plane.clone());
        node.insert(plane);
    }
    for base in [Plane1D(0, true), Plane1D(0, false)] {
        let mut out = Vec::new();
        node.order(&base, &mut out);
        assert_eq!(out.len(), inserted.len());
        let mut a: Vec<(i32, bool)> = out.iter().map(|p| (p.0, p.1)).collect();
        let mut b: Vec<(i32, bool)> = inserted.iter().map(|p| (p.0, p.1)).collect();
        a.sort();
        b.sort();
        assert_eq!(a, b);
    }
}

#[test]
fn order_self_is_stable() {
    let mut rng = Lcg(99);
    let mut node = BspNode::new(Plane1D(0, true));
    for _ in 0..30 {
        node.insert(Plane1D(rng.next_i32() % 50, true));
    }
    let mut first = Vec::new();
    node.order_self(&mut first);
    let mut second = Vec::new();
    node.order_self(&mut second);
    assert_eq!(first, second);
}
