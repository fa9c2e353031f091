use sheaf_automata::sheaf::{OpenSet, SheafSpace, Stalk};

#[test]
fn test_open_set_creation() {
    let os = OpenSet::new("U0", vec![0, 1, 2]);
    assert_eq!(os.name, "U0");
    assert_eq!(os.points, vec![0, 1, 2]);
}

#[test]
fn test_open_set_contains() {
    let os = OpenSet::new("U0", vec![0, 1, 2]);
    assert!(os.contains(0));
    assert!(os.contains(2));
    assert!(!os.contains(3));
}

#[test]
fn test_open_set_intersection() {
    let a = OpenSet::new("A", vec![0, 1, 2]);
    let b = OpenSet::new("B", vec![1, 2, 3]);
    let c = a.intersection(&b);
    assert_eq!(c.points, vec![1, 2]);
}

#[test]
fn test_open_set_union() {
    let a = OpenSet::new("A", vec![0, 1]);
    let b = OpenSet::new("B", vec![2, 3]);
    let c = a.union(&b);
    assert_eq!(c.points, vec![0, 1, 2, 3]);
}

#[test]
fn test_stalk_dimension() {
    let s = Stalk::vector(3);
    assert_eq!(s.dimension(), 3);
    let s2 = Stalk::LabelSet { labels: vec!["a".into(), "b".into()] };
    assert_eq!(s2.dimension(), 2);
}

#[test]
fn test_sheaf_space_nerve() {
    let space = SheafSpace::from_adjacency(3, &[(0, 1), (1, 2)]);
    let nerve = space.nerve();
    assert!(nerve.len() >= 3); // At least vertices
}

#[test]
fn open_set_names_record_the_operation() {
    let a = OpenSet::new("A", vec![3, 1]);
    let b = OpenSet::new("B", vec![1]);
    assert_eq!(a.intersection(&b).name, "A\u{2229}B");
    assert_eq!(a.union(&b).name, "A\u{222a}B");
    assert_eq!(OpenSet::universe(3).name, "U");
    assert_eq!(OpenSet::universe(3).points, vec![0, 1, 2]);
    assert_eq!(OpenSet::empty().name, "\u{2205}");
    assert!(OpenSet::empty().points.is_empty());
    assert!(OpenSet::universe(0).points.is_empty());
}

#[test]
fn open_set_operations_sort_and_drop_repeats() {
    let a = OpenSet::new("A", vec![5, 2, 5, 9, 2]);
    let b = OpenSet::new("B", vec![9, 9, 2, 7]);
    assert_eq!(a.intersection(&b).points, vec![2, 9]);
    assert_eq!(a.union(&b).points, vec![2, 5, 7, 9]);
    assert_eq!(a.intersection(&a).points, a.union(&a).points);
    assert_eq!(a.intersection(&b).points, b.intersection(&a).points);
    assert_eq!(a.union(&b).points, b.union(&a).points);
    let e = OpenSet::empty();
    assert!(a.intersection(&e).points.is_empty());
    assert_eq!(a.union(&e).points, vec![2, 5, 9]);
}

#[test]
fn membership_in_meet_and_join() {
    let a = OpenSet::new("A", vec![0, 4, 8]);
    let b = OpenSet::new("B", vec![4, 6]);
    let meet = a.intersection(&b);
    let join = a.union(&b);
    for p in 0..10 {
        assert_eq!(meet.contains(p), a.contains(p) && b.contains(p));
        assert_eq!(join.contains(p), a.contains(p) || b.contains(p));
    }
}

#[test]
fn stalk_dimensions_of_every_kind() {
    assert_eq!(Stalk::zero().dimension(), 0);
    assert_eq!(Stalk::zero(), Stalk::vector(0));
    let s = Stalk::AutomatonState { states: vec![0, 1, 2], accepting: vec![true] };
    assert_eq!(s.dimension(), 3);
    let c = Stalk::Custom { data: vec![1, 2, 3, 4], dimension: 7 };
    assert_eq!(c.dimension(), 7);
}

#[test]
fn new_space_has_isolated_points_and_the_universe() {
    let space = SheafSpace::new(3);
    assert_eq!(space.n_points, 3);
    assert_eq!(space.open_sets.len(), 1);
    assert_eq!(space.open_sets[0].name, "U");
    assert_eq!(space.open_sets[0].points, vec![0, 1, 2]);
    assert_eq!(space.adjacency.len(), 3);
    for i in 0..3 {
        assert!(space.adjacency[&i].is_empty());
    }
}

#[test]
fn edges_are_recorded_in_both_directions() {
    let mut space = SheafSpace::new(2);
    space.add_edge(0, 1);
    space.add_edge(1, 5);
    assert_eq!(space.adjacency[&0], vec![1]);
    assert_eq!(space.adjacency[&1], vec![0, 5]);
    assert_eq!(space.adjacency[&5], vec![1]);
    space.add_edge(3, 3);
    assert_eq!(space.adjacency[&3], vec![3, 3]);
}

#[test]
fn spaces_from_edges_name_one_open_set_per_edge() {
    let space = SheafSpace::from_adjacency(12, &[(0, 1), (10, 11)]);
    assert_eq!(space.open_sets.len(), 3);
    assert_eq!(space.open_sets[1].name, "U01");
    assert_eq!(space.open_sets[1].points, vec![0, 1]);
    assert_eq!(space.open_sets[2].name, "U1011");
    assert_eq!(space.open_sets[2].points, vec![10, 11]);
    for (&a, list) in &space.adjacency {
        for &b in list {
            assert!(space.adjacency[&b].contains(&a));
        }
    }
}

#[test]
fn nerve_is_sorted_and_holds_open_sets_edges_and_vertices() {
    let space = SheafSpace::from_adjacency(3, &[(0, 1), (1, 2)]);
    let nerve = space.nerve();
    let mut sorted = nerve.clone();
    sorted.sort();
    sorted.dedup();
    assert_eq!(nerve, sorted);
    for s in [vec![0, 1, 2], vec![0, 1], vec![1, 2], vec![0], vec![1], vec![2]] {
        assert!(nerve.contains(&s));
    }
    // Each edge appears once more at most, in one of its orientations.
    assert!(nerve.len() >= 6 && nerve.len() <= 8);
    assert!(!(nerve.contains(&vec![1, 0]) && nerve.contains(&vec![0, 1]) && nerve.len() == 6));
}

#[test]
fn nerve_of_empty_space_is_empty() {
    let space = SheafSpace::new(0);
    assert!(space.nerve().is_empty());
}
