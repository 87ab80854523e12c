use solvers_core::analysis::additive::coloured_trees_by_order;
use solvers_core::analysis::coloured::ColouredTree;
use solvers_core::analysis::order::{trees_by_order, trees_of_order, trees_up_to, SimplifyingAssumptions, Tree};

#[test]
fn rooted_tree_counts_match_the_known_sequence() {
    // 1, 1, 2, 4, 9, 20, 48, 115 rooted trees, OEIS A000081.
    let expected = [1, 1, 2, 4, 9, 20, 48, 115];
    for (index, count) in expected.iter().enumerate() {
        assert_eq!(trees_of_order(index + 1).len(), *count, "order {}", index + 1);
    }
}

#[test]
fn densities_of_the_first_trees_are_right() {
    let value = |t: &Tree| {
        let d = t.density().unwrap();
        d.numerator() as f64 / d.denominator() as f64
    };
    assert_eq!(value(&trees_of_order(1)[0]), 1.0);
    assert_eq!(value(&trees_of_order(2)[0]), 2.0);
    let third: Vec<f64> = trees_of_order(3).iter().map(value).collect();
    // The two trees of order three have densities 3 and 6.
    assert!(third.contains(&3.0) && third.contains(&6.0));
}

#[test]
fn the_colouring_counts_are_the_published_ones() {
    let levels = coloured_trees_by_order(4);
    let counts: Vec<usize> = (1..=4).map(|n| levels[n].len()).collect();
    assert_eq!(counts, vec![2, 4, 14, 52]);
}

#[test]
fn the_trees_of_order_four_in_canonical_order() {
    let names: Vec<String> = trees_of_order(4).iter().map(|t| t.to_string_compact()).collect();
    // The pool is ordered by order and then by bracket notation, in which
    // `[` comes before `t`.
    assert_eq!(names, vec!["[t,t,t]", "[t,[t]]", "[[[t]]]", "[[t,t]]"]);
}

#[test]
fn every_enumerated_tree_has_its_order() {
    let levels = trees_by_order(6);
    assert_eq!(levels.len(), 7);
    assert!(levels[0].is_empty());
    for (n, level) in levels.iter().enumerate() {
        for tree in level {
            assert_eq!(tree.order(), n);
        }
    }
}

#[test]
fn no_tree_appears_twice() {
    let all = trees_up_to(7);
    let mut names: Vec<String> = all.iter().map(|t| t.to_string_compact()).collect();
    let total = names.len();
    names.sort();
    names.dedup();
    assert_eq!(names.len(), total);
    assert_eq!(total, 1 + 1 + 2 + 4 + 9 + 20 + 48);
}

#[test]
fn order_zero_has_no_trees() {
    assert!(trees_of_order(0).is_empty());
    assert!(trees_up_to(0).is_empty());
    assert_eq!(trees_by_order(0).len(), 1);
}

#[test]
fn the_bushy_tree_has_density_its_order() {
    let bush = &trees_of_order(5)[0];
    assert_eq!(bush.to_string_compact(), "[t,t,t,t]");
    let d = bush.density().unwrap();
    assert_eq!((d.numerator(), d.denominator()), (5, 1));
    let trees = trees_of_order(5);
    let tall = trees.iter().find(|t| t.to_string_compact() == "[[[[t]]]]").unwrap().clone();
    let d = tall.density().unwrap();
    assert_eq!((d.numerator(), d.denominator()), (120, 1));
    let last = trees.last().unwrap();
    assert_eq!(last.to_string_compact(), "[[t,t,t]]");
    let d = last.density().unwrap();
    assert_eq!((d.numerator(), d.denominator()), (20, 1));
}

#[test]
fn coloured_labels_and_shapes() {
    let levels = coloured_trees_by_order(2);
    let labels: Vec<String> = levels[2].iter().map(|t| t.label()).collect();
    assert_eq!(labels, vec!["[[]]", "[{}]", "{[]}", "{{}}"]);
    for tree in &levels[2] {
        assert_eq!(tree.order(), 2);
        assert_eq!(tree.shape().to_string_compact(), "[t]");
    }
}

#[test]
fn butchers_theorem_bound() {
    let gauss = SimplifyingAssumptions { quadrature: 6, stage: 3, adjoint: 3 };
    assert_eq!(gauss.certified_order(), 6);
    let limited_by_stage = SimplifyingAssumptions { quadrature: 10, stage: 1, adjoint: 5 };
    assert_eq!(limited_by_stage.certified_order(), 4);
    let limited_by_adjoint = SimplifyingAssumptions { quadrature: 10, stage: 3, adjoint: 1 };
    assert_eq!(limited_by_adjoint.certified_order(), 5);
}

#[test]
fn coloured_subtrees_come_in_canonical_order() {
    let levels = coloured_trees_by_order(3);
    let labels: Vec<String> = levels[3].iter().map(|t| t.label()).collect();
    assert_eq!(labels.len(), 14);
    assert!(labels.contains(&"[[]{}]".to_string()));
    assert!(!labels.iter().any(|l| l.contains("}[")));
}

#[test]
fn the_shape_drops_the_colours_and_keeps_the_order() {
    let t = ColouredTree { colour: 1, children: vec![ColouredTree { colour: 0, children: vec![] }] };
    let u = ColouredTree { colour: 0, children: vec![ColouredTree { colour: 1, children: vec![] }] };
    assert_eq!(t.shape(), Tree { children: vec![Tree::leaf()] });
    assert_eq!(t.shape(), u.shape());
    assert_eq!(t.shape().order(), t.order());
}
