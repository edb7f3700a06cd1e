use unit_conversion::graph::{Connection, Folded, Graph};
use unit_conversion::ratio::Ratio;

fn value(f: Folded) -> (i128, i128) {
    match f {
        Folded::Value(r) => (r.num, r.den),
        other => panic!("no value: {:?}", other),
    }
}

#[test]
fn reverse_edge_carries_the_reciprocal() {
    let g = Graph::new(vec![Connection::new(1, 2, Ratio::new(3, 4))]);
    assert_eq!(value(g.fold_path(1, 2, Ratio::new(8, 1))), (24, 4));
    assert_eq!(value(g.fold_path(2, 1, Ratio::new(8, 1))), (32, 3));
}

#[test]
fn fold_multiplies_along_a_chain() {
    let g = Graph::new(vec![
        Connection::new(1, 2, Ratio::new(2, 1)),
        Connection::new(2, 3, Ratio::new(5, 1)),
        Connection::new(3, 4, Ratio::new(7, 3)),
    ]);
    assert_eq!(value(g.fold_path(1, 4, Ratio::new(1, 1))), (70, 3));
    assert_eq!(value(g.fold_path(4, 1, Ratio::new(1, 1))), (3, 70));
}

#[test]
fn shortest_path_is_taken() {
    let g = Graph::new(vec![
        Connection::new(1, 2, Ratio::new(2, 1)),
        Connection::new(2, 3, Ratio::new(2, 1)),
        Connection::new(1, 3, Ratio::new(5, 1)),
    ]);
    assert_eq!(value(g.fold_path(1, 3, Ratio::new(1, 1))), (5, 1));
}

#[test]
fn first_of_parallel_facts_is_taken() {
    let g = Graph::new(vec![
        Connection::new(1, 2, Ratio::new(3, 1)),
        Connection::new(1, 2, Ratio::new(4, 1)),
    ]);
    assert_eq!(value(g.fold_path(1, 2, Ratio::new(1, 1))), (3, 1));
    assert_eq!(value(g.fold_path(2, 1, Ratio::new(1, 1))), (1, 3));
}

#[test]
fn cycles_terminate() {
    let g = Graph::new(vec![
        Connection::new(1, 2, Ratio::new(2, 1)),
        Connection::new(2, 3, Ratio::new(3, 1)),
        Connection::new(3, 1, Ratio::new(1, 6)),
    ]);
    assert_eq!(g.fold_path(1, 9, Ratio::new(1, 1)), Folded::NoPath);
    assert_eq!(value(g.fold_path(2, 1, Ratio::new(1, 1))), (1, 2));
}

#[test]
fn disconnected_components_give_no_path() {
    let g = Graph::new(vec![
        Connection::new(1, 2, Ratio::new(2, 1)),
        Connection::new(3, 4, Ratio::new(2, 1)),
    ]);
    assert_eq!(g.fold_path(1, 4, Ratio::new(1, 1)), Folded::NoPath);
    assert_eq!(g.fold_path(3, 2, Ratio::new(1, 1)), Folded::NoPath);
}

#[test]
fn identity_on_a_present_key() {
    let g = Graph::new(vec![Connection::new(1, 2, Ratio::new(2, 1))]);
    assert_eq!(g.fold_path(2, 2, Ratio::new(-9, 4)), Folded::Value(Ratio::new(-9, 4)));
    assert_eq!(g.fold_path(5, 5, Ratio::new(1, 1)), Folded::NoPath);
}

#[test]
fn zero_rate_gives_zero_denominator_back() {
    let g = Graph::new(vec![Connection::new(1, 2, Ratio::new(0, 1))]);
    assert_eq!(value(g.fold_path(1, 2, Ratio::new(5, 1))), (0, 1));
    assert_eq!(value(g.fold_path(2, 1, Ratio::new(5, 1))), (5, 0));
}

#[test]
fn product_out_of_range_is_reported() {
    let g = Graph::new(vec![Connection::new(1, 2, Ratio::new(i128::MAX, 1))]);
    assert_eq!(g.fold_path(1, 2, Ratio::new(2, 1)), Folded::Overflow);
    assert_eq!(value(g.fold_path(1, 2, Ratio::new(1, 1))), (i128::MAX, 1));
}

#[test]
fn ratio_inverse_swaps_terms() {
    let r = Ratio::new(-3, 7).inverse();
    assert_eq!((r.num, r.den), (7, -3));
}
