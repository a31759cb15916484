//! The lazy solution algebra: sizes, materialization, and simplification.

use kakuro::quasi::{Color, QuasiSolution};
use num_bigint::BigUint;

fn concrete(digits: Vec<u8>) -> QuasiSolution {
    QuasiSolution::Concrete(digits)
}

#[test]
fn concrete_size_and_build() {
    let q = concrete(vec![1, 2, 3]);
    assert_eq!(q.size(), BigUint::from(1u64));
    assert_eq!(q.build(), vec![vec![1u8, 2, 3]]);
}

#[test]
fn plus_sums_sizes_and_concatenates() {
    let q = QuasiSolution::Plus(vec![concrete(vec![1, 2]), concrete(vec![2, 1])]);
    assert_eq!(q.size(), BigUint::from(2u64));
    assert_eq!(q.build(), vec![vec![1u8, 2], vec![2u8, 1]]);
}

#[test]
fn product_multiplies_sizes_and_interleaves_by_color() {
    // three cells: red, blue, red
    let q = QuasiSolution::Product {
        colors: vec![Color::Red, Color::Blue, Color::Red],
        red: Box::new(QuasiSolution::Plus(vec![
            concrete(vec![1, 2]),
            concrete(vec![3, 4]),
        ])),
        blue: Box::new(QuasiSolution::Plus(vec![
            concrete(vec![5]),
            concrete(vec![6]),
        ])),
    };
    assert_eq!(q.size(), BigUint::from(4u64));
    assert_eq!(
        q.build(),
        vec![
            vec![1u8, 5, 2],
            vec![1u8, 6, 2],
            vec![3u8, 5, 4],
            vec![3u8, 6, 4],
        ]
    );
}

#[test]
fn nested_products_count_without_building() {
    // 3 x 3 = 9 solutions, counted lazily
    let triple = |a: u8| {
        QuasiSolution::Plus(vec![concrete(vec![a]), concrete(vec![a + 1]), concrete(vec![a + 2])])
    };
    let q = QuasiSolution::Product {
        colors: vec![Color::Red, Color::Blue],
        red: Box::new(triple(1)),
        blue: Box::new(triple(4)),
    };
    assert_eq!(q.size(), BigUint::from(9u64));
    assert_eq!(q.build().len(), 9);
}

#[test]
fn simplify_collapses_singleton_unions_and_products() {
    let q = QuasiSolution::Plus(vec![QuasiSolution::Product {
        colors: vec![Color::Blue, Color::Red],
        red: Box::new(concrete(vec![7])),
        blue: Box::new(concrete(vec![2])),
    }]);
    let simplified = q.simplify();
    assert_eq!(simplified.size(), BigUint::from(1u64));
    assert_eq!(simplified.build(), vec![vec![2u8, 7]]);
    assert!(matches!(simplified, QuasiSolution::Concrete(_)));
}

#[test]
fn simplify_keeps_the_solutions_of_a_wide_product() {
    let q = QuasiSolution::Product {
        colors: vec![Color::Red, Color::Blue],
        red: Box::new(QuasiSolution::Plus(vec![
            concrete(vec![1]),
            concrete(vec![2]),
        ])),
        blue: Box::new(QuasiSolution::Plus(vec![
            concrete(vec![8]),
            concrete(vec![9]),
        ])),
    };
    let before = q.build();
    let after = q.simplify().build();
    assert_eq!(before, after);
}

#[test]
fn color_flip_swaps_the_halves() {
    assert!(matches!(Color::Red.flip(), Color::Blue));
    assert!(matches!(Color::Blue.flip(), Color::Red));
}
