use raytracer::bvh::{sort_key, BvhChild, BvhError, BvhLayout, BvhLink};

fn child_leaves(layout: &BvhLayout, c: BvhChild) -> Vec<usize> {
    match c {
        BvhChild::Prim(p) => vec![p],
        BvhChild::Node(j) => leaves(layout, j),
    }
}

fn leaves(layout: &BvhLayout, i: usize) -> Vec<usize> {
    let n = layout.nodes[i];
    let mut out = child_leaves(layout, n.left);
    if n.left != n.right {
        out.extend(child_leaves(layout, n.right));
    }
    out
}

/// Checks the shape of every node and returns the primitives under the root.
fn check_layout(layout: &BvhLayout, keys: &[[u32; 3]]) -> Vec<usize> {
    assert_eq!(layout.root, layout.nodes.len() - 1);
    for (i, n) in layout.nodes.iter().enumerate() {
        assert!(n.axis < 3);
        for c in [n.left, n.right] {
            match c {
                BvhChild::Prim(p) => assert!(p < keys.len()),
                BvhChild::Node(j) => assert!(j < i),
            }
        }
        if n.left == n.right {
            assert!(matches!(n.left, BvhChild::Prim(_)));
        } else {
            let l = child_leaves(layout, n.left);
            let r = child_leaves(layout, n.right);
            assert_eq!(l.len(), (l.len() + r.len()) / 2);
            for &a in &l {
                for &b in &r {
                    assert!(keys[a][n.axis] <= keys[b][n.axis]);
                }
            }
        }
    }
    leaves(layout, layout.root)
}

fn build(keys: &[[u32; 3]]) -> BvhLayout {
    let bounds: Vec<Option<[u32; 3]>> = keys.iter().map(|k| Some(*k)).collect();
    BvhLayout::new(&bounds).unwrap()
}

#[test]
fn empty_list_is_an_error() {
    assert_eq!(BvhLayout::new(&vec![]).err(), Some(BvhError::Empty));
}

#[test]
fn first_unbounded_primitive_is_reported() {
    let bounds = vec![Some([1, 2, 3]), None, Some([4, 5, 6]), None];
    assert_eq!(BvhLayout::new(&bounds).err(), Some(BvhError::Unbounded(1)));
    let bounds = vec![None];
    assert_eq!(BvhLayout::new(&bounds).err(), Some(BvhError::Unbounded(0)));
}

#[test]
fn single_primitive_sits_on_both_sides() {
    let layout = build(&[[4, 4, 4]]);
    assert_eq!(layout.nodes.len(), 1);
    assert_eq!(layout.root, 0);
    let n = layout.nodes[0];
    assert_eq!(n.left, BvhChild::Prim(0));
    assert_eq!(n.right, BvhChild::Prim(0));
}

#[test]
fn two_primitives_in_key_order() {
    // the second primitive is smaller along every axis
    let layout = build(&[[9, 9, 9], [1, 1, 1]]);
    assert_eq!(layout.nodes.len(), 1);
    let n: BvhLink = layout.nodes[0];
    assert_eq!(n.left, BvhChild::Prim(1));
    assert_eq!(n.right, BvhChild::Prim(0));
}

#[test]
fn two_primitives_with_equal_keys_keep_their_order() {
    let layout = build(&[[5, 5, 5], [5, 5, 5]]);
    let n = layout.nodes[0];
    assert_eq!(n.left, BvhChild::Prim(0));
    assert_eq!(n.right, BvhChild::Prim(1));
}

#[test]
fn three_primitives_split_one_and_two() {
    let keys = [[30, 30, 30], [10, 10, 10], [20, 20, 20]];
    let layout = build(&keys);
    assert_eq!(layout.nodes.len(), 3);
    let root = layout.nodes[layout.root];
    assert_eq!(child_leaves(&layout, root.left), vec![1]);
    assert_eq!(child_leaves(&layout, root.right), vec![2, 0]);
    assert_eq!(check_layout(&layout, &keys), vec![1, 2, 0]);
}

#[test]
fn many_primitives_each_appear_once() {
    for n in 1..60usize {
        let keys: Vec<[u32; 3]> = (0..n)
            .map(|i| {
                let i = i as u32;
                [(i * 7919) % 101, (i * 31) % 17, 1000 - i]
            })
            .collect();
        let layout = build(&keys);
        let mut prims = check_layout(&layout, &keys);
        assert_eq!(prims.len(), n);
        prims.sort();
        assert_eq!(prims, (0..n).collect::<Vec<_>>());
    }
}

#[test]
fn equal_keys_still_cover_everything() {
    let keys = vec![[0u32, 0, 0]; 17];
    let layout = build(&keys);
    let mut prims = check_layout(&layout, &keys);
    prims.sort();
    assert_eq!(prims, (0..17).collect::<Vec<_>>());
}

#[test]
fn sorted_axis_orders_leaves() {
    // identical keys on all axes, so every node orders the same way
    let keys: Vec<[u32; 3]> = [8u32, 3, 5, 1, 9, 0, 7, 2, 6, 4].iter().map(|&k| [k, k, k]).collect();
    let layout = build(&keys);
    let prims = check_layout(&layout, &keys);
    let order: Vec<u32> = prims.iter().map(|&p| keys[p][0]).collect();
    assert_eq!(order, (0..10).collect::<Vec<u32>>());
}

#[test]
fn sort_keys_order_like_floats() {
    let values = [f32::NEG_INFINITY, -1e30, -2.5, -1.0, -1e-40, 0.0, 1e-40, 0.5, 1.0, 3.0, 1e30, f32::INFINITY];
    let keys: Vec<u32> = values.iter().map(|v| sort_key(v.to_bits()).unwrap()).collect();
    for w in keys.windows(2) {
        assert!(w[0] < w[1]);
    }
}

#[test]
fn sort_keys_of_zeros_and_nan() {
    assert_eq!(sort_key((-0.0f32).to_bits()), sort_key(0.0f32.to_bits()));
    assert_eq!(sort_key(0.0f32.to_bits()), Some(0x8000_0000));
    assert_eq!(sort_key(1.0f32.to_bits()), Some(0x8000_0000 + 0x3f80_0000));
    assert_eq!(sort_key((-1.0f32).to_bits()), Some(0x8000_0000 - 0x3f80_0000));
    assert_eq!(sort_key(f32::NAN.to_bits()), None);
    assert_eq!(sort_key((-f32::NAN).to_bits()), None);
}
