use bvh::block::{middle, partition, BlockAabb, BlockBvh, BlockPos};
use bvh::{Aabb, Node};
use rand::Rng;

fn aabb(min: (i32, i32, i32), max: (i32, i32, i32)) -> BlockAabb {
    BlockAabb {
        min: BlockPos {
            x: min.0,
            y: min.1,
            z: min.2,
        },
        max: BlockPos {
            x: max.0,
            y: max.1,
            z: max.2,
        },
    }
}

fn queried_positions(index: &BlockBvh<BlockPos>, view: BlockAabb) -> Vec<BlockPos> {
    let mut found = vec![];
    for idx in index.query(view) {
        found.push(*index.get(idx));
    }
    found
}

fn sorted(mut v: Vec<BlockPos>) -> Vec<BlockPos> {
    v.sort_by_key(|p| (p.x, p.y, p.z));
    v
}

#[test]
fn partition_middle() {
    let mut arr = vec![2, 3, 4, 5];
    let mid = middle(arr[0], arr[arr.len() - 1]);
    let len = arr.len();

    let point = partition(&mut arr, 0, len, |&x| mid >= x);

    assert_eq!(point, 2);
    assert_eq!(&arr[..point], &[2, 3]);
    assert_eq!(&arr[point..], &[4, 5]);
}

#[test]
fn query_visits_correct_nodes() {
    let mut index = BlockBvh::<BlockPos>::new(1);

    let mut positions = vec![];

    let size = 500;
    let mut rng = rand::thread_rng();

    // Create a bunch of positions in a large area.
    for _ in 0..100_000 {
        positions.push(BlockPos {
            x: rng.gen_range(-size / 2..size / 2),
            y: rng.gen_range(-size / 2..size / 2),
            z: rng.gen_range(-size / 2..size / 2),
        });
    }

    // Put the view in the center of that area.
    let view = BlockAabb {
        min: BlockPos {
            x: -size / 4,
            y: -size / 4,
            z: -size / 4,
        },
        max: BlockPos {
            x: size / 4,
            y: size / 4,
            z: size / 4,
        },
    };

    let mut viewed_positions = vec![];

    // Create a list of positions the view contains.
    for &pos in &positions {
        if view.intersects(pos.into()) {
            viewed_positions.push(pos);
        }
    }

    index.build(positions);

    assert!(index.check_invariants());

    // Check that we query exactly the positions that we know the view can see.

    for idx in index.query(view) {
        let pos = index.get(idx);
        let at = viewed_positions
            .iter()
            .position(|p| p == pos)
            .expect("queried a position the view cannot see");
        viewed_positions.remove(at);
    }

    assert!(viewed_positions.is_empty());
}

#[test]
fn empty_build_queries_nothing() {
    let mut index = BlockBvh::<BlockPos>::new(1);
    index.build(vec![]);
    assert_eq!(index.nodes.len(), 0);
    assert!(index
        .query(aabb((-1000, -1000, -1000), (1000, 1000, 1000)))
        .is_empty());
    assert!(index.check_invariants());
}

#[test]
fn leaf_threshold_boundary_single_leaf() {
    // All items fit in a box whose extent metric is exactly the threshold:
    // lengths (1, 1, 0) give (1 + 1 + 0) * 2 == 4.
    let mut index = BlockBvh::<BlockPos>::new(4);
    index.build(vec![
        BlockPos::new(0, 0, 0),
        BlockPos::new(1, 0, 0),
        BlockPos::new(0, 1, 0),
        BlockPos::new(1, 1, 0),
    ]);
    assert_eq!(index.nodes.len(), 1);
    assert!(matches!(index.nodes[0], Node::Leaf { .. }));
    assert!(index.check_invariants());
}

#[test]
fn concrete_scenario_split_query() {
    // A threshold low enough to force splitting of the whole batch.
    let mut index = BlockBvh::<BlockPos>::new(4);
    index.build(vec![
        BlockPos::new(0, 0, 0),
        BlockPos::new(1, 0, 0),
        BlockPos::new(10, 10, 10),
    ]);
    assert!(index.nodes.len() > 1);
    assert!(index.check_invariants());

    let found = sorted(queried_positions(&index, aabb((0, 0, 0), (1, 0, 0))));
    assert_eq!(found, vec![BlockPos::new(0, 0, 0), BlockPos::new(1, 0, 0)]);
}

#[test]
fn query_is_idempotent() {
    let mut index = BlockBvh::<BlockPos>::new(1);
    let mut positions = vec![];
    for x in -4..=4 {
        for y in -4..=4 {
            for z in -4..=4 {
                positions.push(BlockPos::new(3 * x, 3 * y, 3 * z));
            }
        }
    }
    index.build(positions);
    let view = aabb((-5, -5, -5), (5, 5, 5));
    let first = index.query(view);
    let second = index.query(view);
    let third = index.query(view);
    assert_eq!(first, second);
    assert_eq!(second, third);
}

#[test]
fn query_matches_brute_force_on_grid() {
    let mut positions = vec![];
    for x in 0..20 {
        for y in 0..20 {
            positions.push(BlockPos::new(x * 7 % 23, y * 5 % 19, (x + y) % 11));
        }
    }
    let mut index = BlockBvh::<BlockPos>::new(2);
    index.build(positions.clone());
    assert!(index.check_invariants());

    let view = aabb((3, 2, 1), (14, 12, 7));
    let mut expected = vec![];
    for &pos in &positions {
        if view.intersects(BlockAabb::point(pos)) {
            expected.push(pos);
        }
    }
    assert!(!expected.is_empty());
    let found = queried_positions(&index, view);
    assert_eq!(sorted(found), sorted(expected));
}

#[test]
fn partition_moves_items_in_place() {
    let mut arr = vec![5, 2, 4, 3];
    let point = partition(&mut arr, 0, 4, |&x| x <= 3);
    assert_eq!(point, 2);
    let mut front = arr[..point].to_vec();
    let mut back = arr[point..].to_vec();
    front.sort();
    back.sort();
    assert_eq!(front, vec![2, 3]);
    assert_eq!(back, vec![4, 5]);
}

#[test]
fn partition_respects_range() {
    let mut arr = vec![9, 1, 8, 2, 7];
    let point = partition(&mut arr, 1, 4, |&x| x >= 5);
    assert_eq!(point, 1);
    assert_eq!(arr[0], 9);
    assert_eq!(arr[4], 7);
    assert_eq!(arr[1], 8);
    let mut tail = arr[2..4].to_vec();
    tail.sort();
    assert_eq!(tail, vec![1, 2]);
}

#[test]
fn shrink_to_fit_keeps_results() {
    let mut index = BlockBvh::<BlockPos>::new(1);
    let positions = vec![
        BlockPos::new(-3, 0, 2),
        BlockPos::new(5, 5, 5),
        BlockPos::new(0, -8, 1),
        BlockPos::new(2, 2, 2),
    ];
    index.build(positions);
    let view = aabb((-4, -9, 0), (3, 3, 3));
    let before = index.query(view);
    index.shrink_to_fit();
    let after = index.query(view);
    assert_eq!(before, after);
    assert!(index.check_invariants());
}

#[test]
fn identical_positions_build_terminates() {
    // Every item shares the split-axis coordinate of the computed midpoint,
    // so the spatial partition makes no progress and the build must fall
    // back to a leaf instead of recursing forever.
    let mut index = BlockBvh::<BlockPos>::new(1);
    let mut positions = vec![BlockPos::new(3, 3, 3); 10];
    positions.push(BlockPos::new(4, 3, 3));
    index.build(positions);
    assert!(index.check_invariants());

    let at_point = index.query(aabb((3, 3, 3), (3, 3, 3)));
    assert_eq!(at_point.len(), 10);
    let all = index.query(aabb((0, 0, 0), (9, 9, 9)));
    assert_eq!(all.len(), 11);
}

#[test]
fn middle_exact_values() {
    // Truncated toward zero, as widening to i64 and halving computes.
    assert_eq!(middle(2, 5), 3);
    assert_eq!(middle(0, 0), 0);
    assert_eq!(middle(-3, 0), -1);
    assert_eq!(middle(-5, -2), -3);
    assert_eq!(middle(i32::MIN, i32::MAX), 0);
}

#[test]
fn box_operations_exact_values() {
    let a = aabb((0, 0, 0), (9, 9, 9));
    assert_eq!(a.surface_area(), 54);

    let p = BlockAabb::point(BlockPos::new(7, -2, 3));
    assert_eq!(p.surface_area(), 0);
    assert_eq!(p.min, BlockPos::new(7, -2, 3));
    assert_eq!(p.max, BlockPos::new(7, -2, 3));

    let b = aabb((-1, 4, -5), (2, 20, 1));
    let u = a.union(b);
    assert_eq!(u, aabb((-1, 0, -5), (9, 20, 9)));
    assert_eq!(u, b.union(a));

    // Closed intervals: boxes that merely touch still intersect.
    assert!(a.intersects(aabb((9, 9, 9), (12, 12, 12))));
    assert!(!a.intersects(aabb((10, 0, 0), (12, 9, 9))));
    assert!(b.intersects(a));
}
