use any4::frequency::count_leaf_instances_of;
use any4::generator::{generate_pool_map, generate_total_possibility_space};
use any4::pools::{difficulty_for_count, InputDifficulty};
use any4::rational::{apply_op, value_is_integer, value_is_positive_integer, OpType, Rational};
use any4::tree::{generate_tree_for_input, get_pairs, remove_pair, OperationMarker, UnidirectionalNode};

fn rat(neg: bool, num: u64, den: u64) -> Rational {
    Rational { neg, num, den }
}

fn count_for(node: &UnidirectionalNode, v: Rational) -> u64 {
    let counter = count_leaf_instances_of(node);
    let mut total = 0;
    for (k, c) in counter.map.iter() {
        if k.same_value(&v) {
            total += *c;
        }
    }
    total
}

fn check_levels(node: &UnidirectionalNode, n: usize, depth: usize, leaves: &mut usize) {
    assert_eq!(node.data.input_vector.len(), n - depth);
    if node.children.is_empty() {
        assert_eq!(depth, n - 1);
        *leaves += 1;
    }
    for c in node.children.iter() {
        check_levels(c, n, depth + 1, leaves);
    }
}

#[test]
fn pair_one_two_children_and_paths() {
    let tree = generate_tree_for_input(&vec![1, 2]);
    assert_eq!(tree.data.op_type, OpType::NoOp);
    assert_eq!(tree.children.len(), 8);
    for c in tree.children.iter() {
        assert_eq!(c.children.len(), 0);
        assert_eq!(c.data.input_vector.len(), 1);
    }
    assert_eq!(count_for(&tree, Rational::from_int(3)), 2);
    assert_eq!(count_for(&tree, Rational::from_int(-1)), 1);
    assert_eq!(count_for(&tree, Rational::from_int(1)), 1);
    assert_eq!(count_for(&tree, Rational::from_int(2)), 3);
    assert_eq!(count_for(&tree, rat(false, 1, 2)), 1);
    assert_eq!(count_for(&tree, Rational::from_int(4)), 0);
    assert_eq!(difficulty_for_count(count_for(&tree, Rational::from_int(2))), InputDifficulty::Moderate);
    assert_eq!(difficulty_for_count(count_for(&tree, Rational::from_int(3))), InputDifficulty::Hard);
}

#[test]
fn leaves_stand_at_the_last_level() {
    let tree = generate_tree_for_input(&vec![1, 2, 3]);
    let mut leaves = 0;
    check_levels(&tree, 3, 0, &mut leaves);
    assert_eq!(tree.children.len(), 24);
    assert_eq!(leaves, 24 * 8);
}

#[test]
fn four_value_tree_levels() {
    let tree = generate_tree_for_input(&vec![1, 1, 2, 3]);
    let mut leaves = 0;
    check_levels(&tree, 4, 0, &mut leaves);
    assert!(leaves > 0);
}

#[test]
fn path_counts_sum_to_leaves() {
    let tree = generate_tree_for_input(&vec![1, 2, 3]);
    let counter = count_leaf_instances_of(&tree);
    let total: u64 = counter.map.iter().map(|(_, c)| *c).sum();
    assert_eq!(total, 192);
    let tree = generate_tree_for_input(&vec![2, 2]);
    let counter = count_leaf_instances_of(&tree);
    let total: u64 = counter.map.iter().map(|(_, c)| *c).sum();
    assert_eq!(total, 8);
}

#[test]
fn single_value_has_no_paths() {
    let tree = generate_tree_for_input(&vec![5]);
    assert_eq!(tree.children.len(), 0);
    assert_eq!(count_leaf_instances_of(&tree).map.len(), 0);
}

#[test]
fn division_by_zero_is_skipped() {
    let tree = generate_tree_for_input(&vec![0, 3]);
    // 0/3 is kept, 3/0 is not: seven children.
    assert_eq!(tree.children.len(), 7);
    for c in tree.children.iter() {
        assert!(c.data.input_vector[0].den > 0);
    }
}

#[test]
fn difficulty_thresholds() {
    assert_eq!(difficulty_for_count(1), InputDifficulty::Hard);
    assert_eq!(difficulty_for_count(2), InputDifficulty::Hard);
    assert_eq!(difficulty_for_count(3), InputDifficulty::Moderate);
    assert_eq!(difficulty_for_count(5), InputDifficulty::Moderate);
    assert_eq!(difficulty_for_count(6), InputDifficulty::Easy);
    assert_eq!(difficulty_for_count(100), InputDifficulty::Easy);
}

#[test]
fn rational_arithmetic_is_exact() {
    let half = rat(false, 1, 2);
    let third = rat(false, 1, 3);
    let s = apply_op(OpType::Plus, half, third).unwrap();
    assert!(s.same_value(&rat(false, 5, 6)));
    let d = apply_op(OpType::Minus, third, half).unwrap();
    assert!(d.same_value(&rat(true, 1, 6)));
    let p = apply_op(OpType::Multiply, half, third).unwrap();
    assert!(p.same_value(&rat(false, 1, 6)));
    let q = apply_op(OpType::Divide, half, third).unwrap();
    assert!(q.same_value(&rat(false, 3, 2)));
    assert!(apply_op(OpType::Divide, half, Rational::from_int(0)).is_none());
    assert!(apply_op(OpType::NoOp, half, third).is_none());
    assert!(!q.same_value(&half));
}

#[test]
fn integer_validators() {
    assert!(value_is_integer(rat(false, 4, 2)));
    assert!(!value_is_integer(rat(false, 1, 2)));
    assert!(value_is_positive_integer(Rational::from_int(0)));
    assert!(value_is_positive_integer(Rational::from_int(7)));
    assert!(!value_is_positive_integer(Rational::from_int(-7)));
    assert!(value_is_integer(Rational::from_int(-7)));
}

#[test]
fn pairs_and_remaining_values() {
    assert_eq!(get_pairs(2), vec![(0, 1), (1, 0)]);
    assert_eq!(get_pairs(1), vec![]);
    assert_eq!(get_pairs(12).len(), 132);
    let pairs = get_pairs(3);
    assert_eq!(pairs, vec![(0, 1), (0, 2), (1, 0), (1, 2), (2, 0), (2, 1)]);
    let v = vec![Rational::from_int(4), Rational::from_int(5), Rational::from_int(6)];
    let rest = remove_pair(&v, 2, 0);
    assert_eq!(rest.len(), 1);
    assert!(rest[0].same_value(&Rational::from_int(5)));
}

#[test]
fn input_vector_to_whole_numbers() {
    let m = OperationMarker { input_vector: vec![Rational::from_int(3), rat(true, 4, 2)], op_type: OpType::NoOp };
    assert_eq!(m.input_vector_to_i32().unwrap(), vec![3, -2]);
    let m = OperationMarker { input_vector: vec![rat(false, 1, 2)], op_type: OpType::NoOp };
    assert!(m.input_vector_to_i32().is_err());
    let m = OperationMarker { input_vector: vec![Rational::from_int(1 << 40)], op_type: OpType::NoOp };
    assert!(m.input_vector_to_i32().is_err());
}

#[test]
fn every_combination_gets_a_root() {
    let roots = generate_total_possibility_space(1, 4, 2);
    let inputs: Vec<Vec<i32>> = roots.iter().map(|r| r.data.input_vector_to_i32().unwrap()).collect();
    assert_eq!(inputs, vec![vec![1, 1], vec![1, 2], vec![1, 3], vec![2, 2], vec![2, 3], vec![3, 3]]);
}

#[test]
fn pool_map_files_each_reachable_target() {
    let map = generate_pool_map(1, 3, 2);
    let two = map.entries.iter().find(|e| e.target.same_value(&Rational::from_int(2))).unwrap();
    assert!(two.pools.moderate.contains(&vec![1, 2]));
    assert!(!two.pools.easy.contains(&vec![1, 2]));
    assert!(!two.pools.hard.contains(&vec![1, 2]));
    let half = map.entries.iter().find(|e| e.target.same_value(&rat(false, 1, 2))).unwrap();
    assert!(half.pools.hard.contains(&vec![1, 2]));
    for e in map.entries.iter() {
        assert!(e.pools.easy.len() + e.pools.moderate.len() + e.pools.hard.len() > 0);
    }
    for (a, e) in map.entries.iter().enumerate() {
        for f in map.entries.iter().skip(a + 1) {
            assert!(!e.target.same_value(&f.target));
        }
    }
}
