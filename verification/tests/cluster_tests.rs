use galaxy_sim::cluster::ClusterForest;
use galaxy_sim::spatial_hash::{bucket_of, hash_cell, CellGrid, HASH_SIZE, NONE};

#[test]
fn reset_makes_singletons() {
    let mut forest = ClusterForest::new();
    forest.reset(4);
    for i in 0..4 {
        assert_eq!(forest.find(i), i);
        assert!(forest.is_root(i));
    }
}

#[test]
fn link_joins_whole_clusters() {
    let mut forest = ClusterForest::new();
    forest.reset(5);
    forest.link(1, 0);
    assert_eq!(forest.find(1), 0);
    assert!(!forest.is_root(1));
    forest.link(3, 4);
    forest.link(0, 4);
    assert_eq!(forest.find(1), 4);
    assert_eq!(forest.find(0), 4);
    assert_eq!(forest.find(3), 4);
    assert_eq!(forest.find(2), 2);
    // After compression body 1 points straight at its root.
    assert!(forest.is_root(4));
    assert_eq!(forest.find(1), 4);
}

#[test]
fn reset_undoes_links() {
    let mut forest = ClusterForest::new();
    forest.reset(3);
    forest.link(0, 1);
    forest.reset(3);
    assert_eq!(forest.find(0), 0);
}

#[test]
fn hash_of_cells() {
    assert_eq!(hash_cell((0, 0, 0)), 0);
    assert_eq!(hash_cell((1, 2, 3)), 147163718);
    assert_eq!(hash_cell((-1, 0, 0)), 4221111203);
    assert_eq!(hash_cell((5, -7, 11)), 3612476075);
    assert_eq!(bucket_of((1, 2, 3)), 100934);
    assert_eq!(bucket_of((-1, 0, 0)), 68515);
    assert_eq!(bucket_of((5, -7, 11)), 683);
}

#[test]
fn rebuild_chains_bodies_per_bucket() {
    let cells = vec![(1, 2, 3), (0, 0, 0), (1, 2, 3), (0, 0, 0), (4, 4, 4)];
    let mut grid = CellGrid::new();
    assert_eq!(grid.head_of(HASH_SIZE - 1), NONE);
    grid.rebuild(&cells);
    assert_eq!(grid.head_of(100934), 2);
    assert_eq!(grid.next_of(2), 0);
    assert_eq!(grid.next_of(0), NONE);
    assert_eq!(grid.head_of(0), 3);
    assert_eq!(grid.next_of(3), 1);
    assert_eq!(grid.next_of(1), NONE);
}

#[test]
fn neighbors_in_sweep_order() {
    let cells = vec![(0, 0, 0), (1, 0, 0), (5, 5, 5), (0, 0, 1), (-1, -1, -1), (0, 2, 0), (0, 0, 0)];
    let mut grid = CellGrid::new();
    grid.rebuild(&cells);
    // Offsets (-1,-1,-1), then (0,0,0) from the highest body down, then (0,0,1), then (1,0,0).
    assert_eq!(grid.neighbors(&cells, 0), vec![4, 6, 3, 1]);
    // Only bodies after body 3 are reported.
    assert_eq!(grid.neighbors(&cells, 3), vec![6]);
    assert_eq!(grid.neighbors(&cells, 2), Vec::<usize>::new());
    assert_eq!(grid.neighbors(&cells, 6), Vec::<usize>::new());
}

#[test]
fn merge_keeps_the_heaviest_root() {
    let weight = vec![5, 9, 9, 1];
    let mut forest = ClusterForest::new();
    forest.reset(4);
    forest.merge(0, 1, &weight);
    assert_eq!(forest.find(0), 1);
    // Equal weights: the root on the side of the first body stays.
    forest.merge(2, 0, &weight);
    assert_eq!(forest.find(0), 2);
    assert_eq!(forest.find(1), 2);
    forest.merge(3, 0, &weight);
    assert_eq!(forest.find(3), 2);
    // Already in one cluster: nothing changes.
    forest.merge(1, 3, &weight);
    assert_eq!(forest.find(1), 2);
    assert!(forest.is_root(2));
}

#[test]
fn merge_touching_builds_touching_components() {
    // Bodies 0-1 and 1-3 touch, 2 touches nobody, 4 touches 5.
    let found = vec![vec![1, 2], vec![3], vec![3], vec![], vec![5], vec![]];
    let touching = vec![vec![true, false], vec![true], vec![false], vec![], vec![true], vec![]];
    let weight = vec![1, 2, 0, 7, 3, 3];
    let mut forest = ClusterForest::new();
    forest.merge_touching(6, &found, &touching, &weight);
    // 0, 1 and 3 form one cluster rooted at the heaviest, body 3.
    assert_eq!(forest.find(0), 3);
    assert_eq!(forest.find(1), 3);
    assert_eq!(forest.find(3), 3);
    assert_eq!(forest.find(2), 2);
    // Equal weights: the first body's root stays.
    assert_eq!(forest.find(5), 4);
}
