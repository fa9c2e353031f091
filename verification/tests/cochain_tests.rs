use std::collections::BTreeMap;

use sheaf_automata::cochain::{build_d0, cochain_dimensions, stalk_dimensions, total_dimension};
use sheaf_automata::composition::composed_dimensions;
use sheaf_automata::protocol::mutex_protocol;
use sheaf_automata::sheaf::{constant_cover, OpenSet, SheafSpace, Stalk};

#[test]
fn coboundary_of_a_single_edge_between_lines() {
    let space = SheafSpace::from_adjacency(2, &[(0, 1)]);
    let d0 = build_d0(&vec![1, 1], &space, 2, 1);
    assert_eq!(d0, vec![vec![-1, 1]]);
}

#[test]
fn coboundary_block_has_the_smaller_dimension() {
    let space = SheafSpace::from_adjacency(2, &[(0, 1)]);
    let d0 = build_d0(&vec![2, 3], &space, 5, 2);
    assert_eq!(d0, vec![vec![-1, 0, 1, 0, 0], vec![0, -1, 0, 1, 0]]);
}

#[test]
fn coboundary_drops_rows_and_columns_past_the_matrix() {
    let space = SheafSpace::from_adjacency(2, &[(0, 1)]);
    let d0 = build_d0(&vec![2, 3], &space, 3, 1);
    assert_eq!(d0, vec![vec![-1, 0, 1]]);
    let empty = build_d0(&vec![2, 3], &space, 5, 0);
    assert!(empty.is_empty());
}

#[test]
fn coboundary_pads_unowned_rows_with_zeros() {
    let space = SheafSpace::from_adjacency(2, &[(0, 1)]);
    let d0 = build_d0(&vec![1, 1], &space, 2, 3);
    assert_eq!(d0, vec![vec![-1, 1], vec![0, 0], vec![0, 0]]);
    let isolated = SheafSpace::new(2);
    let zero = build_d0(&vec![1, 1], &isolated, 2, 2);
    assert_eq!(zero, vec![vec![0, 0], vec![0, 0]]);
}

#[test]
fn coboundary_of_a_path_has_one_row_per_edge() {
    let space = SheafSpace::from_adjacency(3, &[(0, 1), (1, 2)]);
    let mut d0 = build_d0(&vec![1, 1, 1], &space, 3, 2);
    d0.sort();
    assert_eq!(d0, vec![vec![-1, 1, 0], vec![0, -1, 1]]);
}

#[test]
fn coboundary_counts_an_edge_listed_twice_twice() {
    let mut space = SheafSpace::new(2);
    space.add_edge(0, 1);
    space.add_edge(1, 0);
    let d0 = build_d0(&vec![1, 1], &space, 2, 2);
    assert_eq!(d0, vec![vec![-1, 1], vec![-1, 1]]);
}

fn stalks(entries: &[(usize, usize)]) -> BTreeMap<usize, Stalk> {
    let mut m = BTreeMap::new();
    for &(p, d) in entries {
        m.insert(p, Stalk::vector(d));
    }
    m
}

#[test]
fn stalk_dimensions_follow_the_points_below_the_stalk_count() {
    let mut m = stalks(&[(0, 2), (2, 5)]);
    assert_eq!(stalk_dimensions(&m), vec![2]);
    m.insert(1, Stalk::LabelSet { labels: vec!["a".to_string(), "b".to_string(), "c".to_string()] });
    assert_eq!(stalk_dimensions(&m), vec![2, 3, 5]);
    assert!(stalk_dimensions(&BTreeMap::new()).is_empty());
}

#[test]
fn cochain_dimensions_sum_stalks_and_two_point_sets() {
    let m = stalks(&[(0, 2), (1, 3)]);
    let space = SheafSpace::from_adjacency(2, &[(0, 1)]);
    // The universe and the open set of the edge both hold two points.
    assert_eq!(cochain_dimensions(&vec![2, 3], &m, &space), Some((5, 10)));
    let three = SheafSpace::new(3);
    assert_eq!(cochain_dimensions(&vec![2, 3], &m, &three), Some((5, 0)));
    let mut pair_with_missing = SheafSpace::new(3);
    pair_with_missing.open_sets.push(OpenSet::new("V", vec![1, 7]));
    assert_eq!(cochain_dimensions(&vec![2, 3], &m, &pair_with_missing), Some((5, 3)));
}

#[test]
fn cochain_dimensions_refuse_sums_past_the_word_size() {
    let m = stalks(&[(0, usize::MAX), (1, 1)]);
    let space = SheafSpace::new(3);
    assert_eq!(cochain_dimensions(&vec![usize::MAX, 1], &m, &space), None);
    let two = SheafSpace::new(2);
    assert_eq!(cochain_dimensions(&vec![usize::MAX], &m, &two), None);
    assert_eq!(cochain_dimensions(&vec![usize::MAX], &m, &space), Some((usize::MAX, 0)));
}

#[test]
fn constant_cover_lists_universe_points_and_pairs() {
    let cover = constant_cover(3);
    let names: Vec<&str> = cover.iter().map(|o| o.name.as_str()).collect();
    assert_eq!(names, vec!["U", "U0", "U1", "U2", "U0∩U1", "U0∩U2", "U1∩U2"]);
    assert_eq!(cover[0].points, vec![0, 1, 2]);
    assert_eq!(cover[2].points, vec![1]);
    assert_eq!(cover[5].points, vec![0, 2]);
    let single = constant_cover(1);
    assert_eq!(single.len(), 2);
    assert!(constant_cover(0).len() == 1 && constant_cover(0)[0].points.is_empty());
}

#[test]
fn named_point_and_pair_sets() {
    let p = OpenSet::point(12);
    assert_eq!((p.name.as_str(), p.points.clone()), ("U12", vec![12]));
    let q = OpenSet::pair(3, 10);
    assert_eq!((q.name.as_str(), q.points.clone()), ("U3∩U10", vec![3, 10]));
}

#[test]
fn configuration_space_joins_each_agent_to_its_neighbours() {
    let p = mutex_protocol(3, 1);
    let space = p.configuration_space();
    assert_eq!(space.n_points, 3);
    assert_eq!(space.open_sets.len(), 1);
    assert_eq!(space.open_sets[0].points, vec![0, 1, 2]);
    assert_eq!(space.adjacency[&0], vec![1, 2, 1, 2]);
    assert_eq!(space.adjacency[&1], vec![0, 0, 2, 2]);
    assert_eq!(space.adjacency[&2], vec![0, 1, 0, 1]);
}

#[test]
fn open_cover_lists_agents_universe_and_forward_links() {
    let p = mutex_protocol(3, 1);
    let cover = p.open_cover();
    let names: Vec<&str> = cover.iter().map(|o| o.name.as_str()).collect();
    assert_eq!(names, vec!["U0", "U1", "U2", "U", "U0∩U1", "U0∩U2", "U1∩U2"]);
    assert_eq!(cover[3].points, vec![0, 1, 2]);
    assert_eq!(cover[6].points, vec![1, 2]);
}

#[test]
fn coboundary_rows_sum_to_zero_on_the_constant_section() {
    let space = SheafSpace::from_adjacency(3, &[(0, 1), (1, 2), (0, 2)]);
    let d0 = build_d0(&vec![2, 3, 1], &space, 6, 4);
    assert_eq!(d0.len(), 4);
    for row in &d0 {
        assert_eq!(row.iter().map(|&x| x as i32).sum::<i32>(), 0);
        assert_eq!(row.iter().filter(|&&x| x != 0).count(), 2);
    }
    // With columns dropped a row may lose its +1.
    let narrow = build_d0(&vec![2, 3], &SheafSpace::from_adjacency(2, &[(0, 1)]), 3, 2);
    assert_eq!(narrow, vec![vec![-1, 0, 1], vec![0, -1, 0]]);
}

#[test]
fn total_dimension_sums_every_stalk() {
    let mut m = stalks(&[(0, 2), (7, 5)]);
    m.insert(3, Stalk::LabelSet { labels: vec!["a".to_string()] });
    assert_eq!(total_dimension(&m), Some(8));
    assert_eq!(total_dimension(&BTreeMap::new()), Some(0));
    let big = stalks(&[(0, usize::MAX), (1, 1)]);
    assert_eq!(total_dimension(&big), None);
    let edge = stalks(&[(0, usize::MAX), (1, 0)]);
    assert_eq!(total_dimension(&edge), Some(usize::MAX));
}

#[test]
fn composed_dimensions_of_two_protocols() {
    assert_eq!(composed_dimensions(1, 2, 1, 3), Some((1, 5, 6)));
    assert_eq!(composed_dimensions(3, 0, 2, 4), Some((4, 4, 0)));
    // A single H⁰ class on one side and none on the other keeps H⁰ at 1.
    assert_eq!(composed_dimensions(1, 0, 0, 0), Some((1, 0, 0)));
    assert_eq!(composed_dimensions(0, 1, 0, 1), None);
    assert_eq!(composed_dimensions(usize::MAX, 0, 1, 0), None);
    assert_eq!(composed_dimensions(1, usize::MAX, 1, 2), None);
    assert_eq!(composed_dimensions(1, usize::MAX, 1, 1), None);
    assert_eq!(composed_dimensions(1, usize::MAX, 1, 0), Some((1, usize::MAX, 0)));
}
