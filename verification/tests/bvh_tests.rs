use raytracer::bvh::{BVHNode, BVH};

/// Splits the given primitives at the middle of their coordinate range,
/// as the renderer does along the longest axis of the node's box.
fn midpoint_classifier(coords: Vec<f64>) -> impl Fn(&Vec<usize>) -> Vec<bool> {
    move |ids: &Vec<usize>| {
        let lo = ids.iter().map(|&i| coords[i]).fold(f64::MAX, f64::min);
        let hi = ids.iter().map(|&i| coords[i]).fold(f64::MIN, f64::max);
        let split = lo + (hi - lo) * 0.5;
        ids.iter().map(|&i| coords[i] < split).collect()
    }
}

fn shape(tree: &BVH) -> Vec<(usize, usize, usize)> {
    tree.bvh_nodes
        .iter()
        .map(|n| (n.l_idx, n.first_prim, n.prim_count))
        .collect()
}

#[test]
fn default_node_is_blank() {
    let node = BVHNode::default();
    assert_eq!((node.l_idx, node.first_prim, node.prim_count), (0, 0, 0));
}

#[test]
fn build_splits_down_to_single_primitives() {
    let classify = midpoint_classifier(vec![3.0, 1.0, 2.0, 0.0]);
    let tree = BVH::build(4, &classify);
    assert_eq!(tree.prims, vec![3, 1, 2, 0]);
    assert_eq!(tree.nodes_used, 7);
    assert_eq!(
        shape(&tree),
        vec![
            (1, 0, 0),
            (3, 0, 0),
            (5, 2, 0),
            (0, 0, 1),
            (0, 1, 1),
            (0, 2, 1),
            (0, 3, 1),
            (0, 0, 0),
            (0, 0, 0),
        ]
    );
}

#[test]
fn build_of_one_primitive_is_a_leaf() {
    let classify = |ids: &Vec<usize>| -> Vec<bool> { vec![true; ids.len()] };
    let tree = BVH::build(1, &classify);
    assert_eq!(tree.nodes_used, 1);
    assert_eq!(shape(&tree), vec![(0, 0, 1), (0, 0, 0), (0, 0, 0)]);
    assert_eq!(tree.prims, vec![0]);
}

#[test]
fn split_that_separates_nothing_leaves_a_leaf() {
    // All centroids coincide: nobody lies below the split plane.
    let classify = midpoint_classifier(vec![5.0, 5.0, 5.0]);
    let tree = BVH::build(3, &classify);
    assert_eq!(tree.nodes_used, 1);
    assert_eq!(tree.bvh_nodes[0].prim_count, 3);
    let mut prims = tree.prims.clone();
    prims.sort();
    assert_eq!(prims, vec![0, 1, 2]);
}

#[test]
fn classification_of_wrong_length_leaves_a_leaf() {
    let classify = |_ids: &Vec<usize>| -> Vec<bool> { vec![true] };
    let tree = BVH::build(3, &classify);
    assert_eq!(tree.nodes_used, 1);
    assert_eq!(tree.prims, vec![0, 1, 2]);
    assert_eq!(tree.bvh_nodes[0].prim_count, 3);
}

#[test]
fn split_keeps_left_primitives_first() {
    // Primitives 1 and 3 go left, 0 and 2 right.
    let classify = |ids: &Vec<usize>| -> Vec<bool> {
        if ids.len() == 4 {
            ids.iter().map(|&i| i % 2 == 1).collect()
        } else {
            vec![false; ids.len()]
        }
    };
    let tree = BVH::build(4, &classify);
    assert_eq!(tree.nodes_used, 3);
    // the halves were partitioned once more by the splits that did nothing
    assert_eq!(tree.prims, vec![1, 3, 0, 2]);
    assert_eq!(shape(&tree)[..3], [(1, 0, 0), (0, 0, 2), (0, 2, 2)]);
}

#[test]
fn node_count_stays_below_twice_the_primitives() {
    let coords: Vec<f64> = (0..9).map(|i| ((i * 7) % 9) as f64).collect();
    let classify = midpoint_classifier(coords);
    let tree = BVH::build(9, &classify);
    assert!(tree.nodes_used <= 2 * 9 - 1);
    assert_eq!(tree.bvh_nodes.len(), 2 * 9 + 1);
    // every leaf owns one primitive and the leaves cover 0..9 once
    let mut covered = vec![0; 9];
    for node in &tree.bvh_nodes[..tree.nodes_used] {
        for p in node.first_prim..node.first_prim + node.prim_count {
            covered[p] += 1;
        }
    }
    assert_eq!(covered, vec![1; 9]);
    let mut prims = tree.prims.clone();
    prims.sort();
    assert_eq!(prims, (0..9).collect::<Vec<usize>>());
}

#[test]
fn traverse_picks_the_nearer_hit() {
    let coords = vec![3.0, 1.0, 2.0, 0.0];
    let tree = BVH::build(4, &midpoint_classifier(coords.clone()));
    let hit_box = |_k: usize| true;
    let hit_prim = |p: usize| p == 1 || p == 2;
    let nearer = |a: usize, b: usize| coords[a] < coords[b];
    assert_eq!(tree.traverse(0, &hit_box, &hit_prim, &nearer), Some(1));
    let far_first = |a: usize, b: usize| coords[a] > coords[b];
    assert_eq!(tree.traverse(0, &hit_box, &hit_prim, &far_first), Some(2));
}

#[test]
fn traverse_skips_missed_boxes() {
    let coords = vec![3.0, 1.0, 2.0, 0.0];
    let tree = BVH::build(4, &midpoint_classifier(coords.clone()));
    let hit_prim = |p: usize| p == 1 || p == 2;
    let nearer = |a: usize, b: usize| coords[a] < coords[b];
    // node 1 holds primitives 3 and 1
    let miss_left = |k: usize| k != 1;
    assert_eq!(tree.traverse(0, &miss_left, &hit_prim, &nearer), Some(2));
    let miss_root = |k: usize| k != 0;
    assert_eq!(tree.traverse(0, &miss_root, &hit_prim, &nearer), None);
    assert_eq!(tree.traverse(2, &miss_left, &hit_prim, &nearer), Some(2));
}

#[test]
fn traverse_without_hits_finds_nothing() {
    let coords = vec![3.0, 1.0, 2.0, 0.0];
    let tree = BVH::build(4, &midpoint_classifier(coords.clone()));
    let hit_box = |_k: usize| true;
    let no_prim = |_p: usize| false;
    let nearer = |a: usize, b: usize| coords[a] < coords[b];
    assert_eq!(tree.traverse(0, &hit_box, &no_prim, &nearer), None);
}

#[test]
fn traverse_tests_only_the_first_primitive_of_a_leaf() {
    // Nothing separates: one leaf holding 0, 1, 2; only prims[0] is tested.
    let tree = BVH::build(3, &|ids: &Vec<usize>| vec![false; ids.len()]);
    let hit_box = |_k: usize| true;
    let nearer = |_a: usize, _b: usize| true;
    assert_eq!(tree.prims, vec![1, 2, 0]);
    let only_two = |p: usize| p == 2;
    assert_eq!(tree.traverse(0, &hit_box, &only_two, &nearer), None);
    let only_one = |p: usize| p == 1;
    assert_eq!(tree.traverse(0, &hit_box, &only_one, &nearer), Some(1));
}

#[test]
fn children_are_allocated_depth_first() {
    // The left half splits twice more before the right half is reached.
    let classify = midpoint_classifier(vec![0.0, 1.0, 2.0, 10.0]);
    let tree = BVH::build(4, &classify);
    assert_eq!(tree.nodes_used, 7);
    assert_eq!(tree.prims, vec![0, 1, 2, 3]);
    assert_eq!(
        shape(&tree)[..7],
        [
            (1, 0, 0),
            (3, 0, 0),
            (0, 3, 1),
            (0, 0, 1),
            (5, 1, 0),
            (0, 1, 1),
            (0, 2, 1),
        ]
    );
}

#[test]
fn every_leaf_is_reached_when_every_box_is_hit() {
    let classify = midpoint_classifier(vec![0.0, 1.0, 2.0, 10.0]);
    let tree = BVH::build(4, &classify);
    let hit_box = |_k: usize| true;
    let nearer = |a: usize, b: usize| a < b;
    for k in 0..tree.nodes_used {
        let node = tree.bvh_nodes[k];
        if node.prim_count > 0 {
            let p = tree.prims[node.first_prim];
            let only_p = |q: usize| q == p;
            assert_eq!(tree.traverse(0, &hit_box, &only_p, &nearer), Some(p));
        }
    }
}
