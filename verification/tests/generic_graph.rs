use ginger::graph::Graph;

#[test]
fn generic_insert_idempotent() {
    // re-adding a pair already present leaves the graph equal
    let g = Graph::new().with("foo", Graph::from_value(1, "bar"));
    let g1 = g.with("foo", Graph::from_value(1, "bar"));
    assert!(g == g1);
}

#[test]
fn generic_insert_distinct() {
    let g = Graph::new().with("foo", Graph::from_value(1, "bar"));
    let g2 = g.with("foo", Graph::from_value(2, "baz"));
    assert!(g != g2);
}

#[test]
fn generic_order_independence() {
    let a = Graph::new().with("a", Graph::from_value(1, "x")).with("b", Graph::from_value(2, "y"));
    let b = Graph::new().with("b", Graph::from_value(2, "y")).with("a", Graph::from_value(1, "x"));
    assert!(a == b);
}

#[test]
fn generic_tuple_edges() {
    let a = Graph::new().with(
        "r",
        Graph::from_tuple(7, vec![Graph::from_value(1, "x"), Graph::from_value(2, "y")]),
    );
    let b = Graph::new().with(
        "r",
        Graph::from_tuple(7, vec![Graph::from_value(1, "x"), Graph::from_value(2, "y")]),
    );
    let c = Graph::new().with(
        "r",
        Graph::from_tuple(7, vec![Graph::from_value(2, "y"), Graph::from_value(1, "x")]),
    );
    assert!(a == b);
    // tuple order is significant
    assert!(a != c);
}
