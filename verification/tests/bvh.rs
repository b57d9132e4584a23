use openpbr::bvh::{Bvh, Node, Triangle};

/// Bounds on a line: the smallest and largest coordinate of a run of triangles.
fn bound(triangles: &[Triangle<i32>]) -> (i32, i32) {
    let mut min = i32::MAX;
    let mut max = i32::MIN;
    for tri in triangles {
        for &p in &tri.positions {
            min = min.min(p);
            max = max.max(p);
        }
    }
    (min, max)
}

/// A run becomes a leaf once its extent is at most twice that of its longest triangle.
fn stop(volume: &(i32, i32), triangles: &[Triangle<i32>]) -> bool {
    let longest = triangles
        .iter()
        .map(|t| {
            let min = t.positions.iter().copied().min().unwrap();
            let max = t.positions.iter().copied().max().unwrap();
            max - min
        })
        .max()
        .unwrap_or(0);
    volume.1 - volume.0 <= 2 * longest
}

/// The centroid lies below the middle of the volume.
fn below(volume: &(i32, i32), tri: &Triangle<i32>) -> bool {
    let sum: i32 = tri.positions.iter().sum();
    2 * sum < 3 * (volume.0 + volume.1)
}

fn indices(bvh: &Bvh<i32, (i32, i32)>) -> Vec<usize> {
    bvh.triangles().iter().map(|t| t.index).collect()
}

#[test]
fn empty_positions_give_empty_hierarchy() {
    let bvh = Bvh::new(&[], bound, stop, below);
    assert_eq!(bvh.node_count(), 0);
    assert!(bvh.nodes().is_empty());
    assert!(bvh.triangles().is_empty());
}

#[test]
fn default_is_empty() {
    let bvh: Bvh<i32, (i32, i32)> = Bvh::default();
    assert_eq!(bvh.node_count(), 0);
    assert!(bvh.triangles().is_empty());
}

#[test]
fn single_triangle_is_one_leaf() {
    let bvh = Bvh::new(&[4, 5, 9], bound, stop, below);
    assert_eq!(bvh.node_count(), 1);
    assert_eq!(bvh.nodes()[0], Node::Leaf { start: 0, end: 1 });
    assert_eq!(
        bvh.triangles(),
        &[Triangle {
            positions: [4, 5, 9],
            index: 0
        }]
    );
}

#[test]
fn far_apart_triangles_are_split_at_the_midpoint() {
    let positions = [0, 1, 2, 100, 101, 102, 10, 11, 12, 110, 111, 112];
    let bvh = Bvh::new(&positions, bound, stop, below);
    assert_eq!(
        bvh.nodes(),
        &[
            Node::Internal {
                volume: (0, 112),
                children: [1, 4]
            },
            Node::Internal {
                volume: (0, 12),
                children: [2, 3]
            },
            Node::Leaf { start: 0, end: 1 },
            Node::Leaf { start: 1, end: 2 },
            Node::Internal {
                volume: (100, 112),
                children: [5, 6]
            },
            Node::Leaf { start: 2, end: 3 },
            Node::Leaf { start: 3, end: 4 },
        ]
    );
    assert_eq!(indices(&bvh), vec![0, 2, 1, 3]);
    for tri in bvh.triangles() {
        assert_eq!(tri.positions[..], positions[3 * tri.index..3 * tri.index + 3]);
    }
}

#[test]
fn close_triangles_share_a_leaf() {
    let positions = [0, 2, 4, 1, 3, 5, 2, 4, 6];
    let bvh = Bvh::new(&positions, bound, stop, below);
    assert_eq!(bvh.nodes(), &[Node::Leaf { start: 0, end: 3 }]);
    assert_eq!(indices(&bvh), vec![0, 1, 2]);
}

#[test]
fn one_sided_split_is_halved() {
    // All centroids coincide, so no triangle lies below the middle.
    let positions = [7; 9];
    let bvh = Bvh::new(&positions, bound, |_: &(i32, i32), _: &[Triangle<i32>]| false, below);
    assert_eq!(
        bvh.nodes(),
        &[
            Node::Internal {
                volume: (7, 7),
                children: [1, 2]
            },
            Node::Leaf { start: 0, end: 1 },
            Node::Internal {
                volume: (7, 7),
                children: [3, 4]
            },
            Node::Leaf { start: 1, end: 2 },
            Node::Leaf { start: 2, end: 3 },
        ]
    );
    assert_eq!(indices(&bvh), vec![0, 1, 2]);
}

/// Walks the tree from the root and checks that each inner node's children come after it and
/// cover adjacent ranges, so that every triangle lies in exactly one leaf.
fn range(bvh: &Bvh<i32, (i32, i32)>, node: usize) -> (usize, usize) {
    match bvh.nodes()[node] {
        Node::Leaf { start, end } => {
            assert!(start < end);
            (start, end)
        }
        Node::Internal { children, .. } => {
            assert!(node < children[0] && children[0] < children[1]);
            let (ls, le) = range(bvh, children[0]);
            let (rs, re) = range(bvh, children[1]);
            assert_eq!(le, rs);
            (ls, re)
        }
    }
}

#[test]
fn leaves_partition_the_triangles() {
    let positions: Vec<i32> = (0..30).map(|i| (i * 37) % 101).collect();
    let bvh = Bvh::new(&positions, bound, stop, below);
    assert_eq!(range(&bvh, 0), (0, 10));
    let mut seen = indices(&bvh);
    seen.sort();
    assert_eq!(seen, (0..10).collect::<Vec<_>>());
    let mut leaf_count = 0;
    let mut covered = vec![0; 10];
    for node in bvh.nodes() {
        if let Node::Leaf { start, end } = *node {
            leaf_count += 1;
            for c in &mut covered[start..end] {
                *c += 1;
            }
        }
    }
    assert!(leaf_count >= 1);
    assert_eq!(covered, vec![1; 10]);
    assert_eq!(bvh.node_count(), bvh.nodes().len());
}
