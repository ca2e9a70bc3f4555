use jumli::union_find::UnionFind;

#[test]
fn fresh_elements_are_their_own_roots() {
    let mut sets = UnionFind::new(4);
    for element in 0..4 {
        assert_eq!(sets.find(element), element);
    }
}

#[test]
fn no_elements_is_fine() {
    let sets = UnionFind::new(0);
    assert_eq!(sets.size(), 0);
}

#[test]
fn union_joins_two_sets() {
    let mut sets = UnionFind::new(3);
    sets.union(0, 1);
    assert_eq!(sets.find(0), sets.find(1));
    assert_ne!(sets.find(0), sets.find(2));
    assert_eq!(sets.find(2), 2);
}

#[test]
fn on_equal_ranks_the_first_root_survives() {
    let mut sets = UnionFind::new(4);
    sets.union(2, 3);
    assert_eq!(sets.find(2), 2);
    assert_eq!(sets.find(3), 2);
    sets.union(1, 0);
    assert_eq!(sets.find(0), 1);
}

#[test]
fn the_root_of_higher_rank_survives() {
    let mut sets = UnionFind::new(3);
    sets.union(0, 1);
    sets.union(2, 1);
    assert_eq!(sets.find(2), 0);
    sets.union(1, 2);
    assert_eq!(sets.find(2), 0);
    assert_eq!(sets.find(1), 0);
}

#[test]
fn union_of_one_set_with_itself_changes_nothing() {
    let mut sets = UnionFind::new(3);
    sets.union(0, 1);
    sets.union(1, 0);
    sets.union(2, 2);
    assert_eq!(sets.find(0), sets.find(1));
    assert_eq!(sets.find(2), 2);
}

#[test]
fn find_agrees_with_the_closure_of_the_unions() {
    let pairs = [(0usize, 5usize), (1, 2), (5, 6), (3, 3), (2, 7), (6, 0), (8, 9), (9, 7)];
    let count = 11;
    let mut sets = UnionFind::new(count);
    let mut class: Vec<usize> = (0..count).collect();
    for &(x, y) in pairs.iter() {
        sets.union(x, y);
        let (from, to) = (class[x], class[y]);
        for entry in class.iter_mut() {
            if *entry == from {
                *entry = to;
            }
        }
    }
    for x in 0..count {
        for y in 0..count {
            assert_eq!(sets.find(x) == sets.find(y), class[x] == class[y], "{x} and {y}");
        }
    }
}

#[test]
fn a_long_chain_ends_in_one_set() {
    let count = 2000;
    let mut sets = UnionFind::new(count);
    for element in 1..count {
        sets.union(element - 1, element);
    }
    let root = sets.find(0);
    for element in 0..count {
        assert_eq!(sets.find(element), root);
    }
}
