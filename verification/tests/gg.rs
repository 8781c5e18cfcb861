use ginger::gg::{zero_tuple, Graph, Value};

fn number(i: i64) -> Value {
    Value::Number(i)
}

#[test]
fn equality() {
    let g1 = Graph::new().with(number(0), number(1), number(2)).with(
        number(3),
        number(4),
        number(5),
    );

    let g2 = Graph::new().with(number(3), number(4), number(5)).with(
        number(0),
        number(1),
        number(2),
    );

    assert_eq!(g1, g2);
}

#[test]
fn deep_equality() {
    let g1 = Graph::new().with(
        number(-2),
        zero_tuple(),
        Value::Graph(
            Graph::new().with(number(0), number(1), number(2)).with(
                number(3),
                number(4),
                number(5),
            ),
        ),
    );

    let g2 = Graph::new().with(
        number(-2),
        zero_tuple(),
        Value::Graph(
            Graph::new().with(number(3), number(4), number(5)).with(
                number(0),
                number(1),
                number(2),
            ),
        ),
    );

    assert_eq!(g1, g2);
}

#[test]
fn insert_idempotent() {
    let g1 = Graph::new().with(number(0), number(1), number(2));
    let g2 = Graph::new().with(number(0), number(1), number(2)).with(
        number(0),
        number(1),
        number(2),
    );
    assert_eq!(g1, g2);
}

#[test]
fn edges_walk() {
    let g = Graph::new().with(number(0), number(1), number(2)).with(
        number(3),
        number(4),
        number(5),
    );
    let es = g.edges();
    assert_eq!(es.len(), 2);
    assert_eq!(es[0].0, number(0));
    assert_eq!(es[0].1, ginger::gg::OpenEdge(number(1), number(2)));
    assert_eq!(es[1].0, number(3));
    assert_eq!(es[1].1, ginger::gg::OpenEdge(number(4), number(5)));
}
