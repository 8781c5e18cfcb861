//! The `Value`/`Graph` data model produced by the decoder.
//!
//! A `Graph` is a set of edge triples `(destination, label, source)`:
//! duplicates collapse and insertion order never affects equality, even for
//! graphs nested inside other values. A `Value` is a name, a signed 64-bit
//! number, an ordered tuple of labeled edges, or a nested graph.

use vstd::prelude::*;

pub mod decoder;
pub mod lexer;

verus! {

// ---------------------------------------------------------------------------
// Mathematical model
// ---------------------------------------------------------------------------

/// Model of an edge still missing its destination: a label and a source.
pub struct OpenEdgeModel {
    pub label: ValModel,
    pub src: ValModel,
}

/// Model of a graph: the sequence of `(destination, open edge)` pairs in
/// insertion order. Equality of graphs is `geq`, which ignores the order.
pub type GraphModel = Seq<(ValModel, OpenEdgeModel)>;

/// Model of a decoded value.
pub enum ValModel {
    Name(Seq<char>),
    Number(int),
    Tuple(Seq<OpenEdgeModel>),
    Graph(GraphModel),
}

/// The empty tuple: the sentinel for "no explicit label yet".
pub open spec fn zero_tuple_model() -> ValModel {
    ValModel::Tuple(Seq::empty())
}

/// Canonical equality of values: deep structural equality, except that
/// nested graphs are compared as sets of edges.
pub open spec fn veq(a: ValModel, b: ValModel) -> bool
    decreases a, 0int,
{
    match (a, b) {
        (ValModel::Name(s1), ValModel::Name(s2)) => s1 == s2,
        (ValModel::Number(n1), ValModel::Number(n2)) => n1 == n2,
        (ValModel::Tuple(t1), ValModel::Tuple(t2)) => t1.len() == t2.len() && (forall|i: int|
            0 <= i < t1.len() ==> oeq(#[trigger] t1[i], t2[i])),
        (ValModel::Graph(g1), ValModel::Graph(g2)) => geq(g1, g2),
        _ => false,
    }
}

/// Canonical equality of open edges.
pub open spec fn oeq(a: OpenEdgeModel, b: OpenEdgeModel) -> bool
    decreases a, 0int,
{
    veq(a.label, b.label) && veq(a.src, b.src)
}

/// Canonical equality of `(destination, open edge)` pairs.
pub open spec fn peq(a: (ValModel, OpenEdgeModel), b: (ValModel, OpenEdgeModel)) -> bool
    decreases a, 0int,
{
    veq(a.0, b.0) && oeq(a.1, b.1)
}

/// Whether some member of `g` is canonically equal to `e`, with `e` on the
/// right of `peq`.
#[verifier::opaque]
pub open spec fn g_has(g: GraphModel, e: (ValModel, OpenEdgeModel)) -> bool
    decreases g, 1int,
{
    exists|i: int| 0 <= i < g.len() && peq(#[trigger] g[i], e)
}

/// Whether some member of `g` is canonically equal to `e`, with `e` on the
/// left of `peq`.
#[verifier::opaque]
pub open spec fn edge_in(e: (ValModel, OpenEdgeModel), g: GraphModel) -> bool
    decreases e, 1int,
{
    exists|j: int| 0 <= j < g.len() && peq(e, #[trigger] g[j])
}

/// Canonical equality of graphs: each edge of either side has a canonically
/// equal edge on the other side.
pub open spec fn geq(g1: GraphModel, g2: GraphModel) -> bool
    decreases g1, 2int,
{
    (forall|i: int| 0 <= i < g1.len() ==> edge_in(#[trigger] g1[i], g2)) && (forall|j: int|
        0 <= j < g2.len() ==> g_has(g1, #[trigger] g2[j]))
}

/// `geq` holds once both inclusions are known.
pub proof fn lemma_geq_intro(g1: GraphModel, g2: GraphModel)
    requires
        forall|i: int| 0 <= i < g1.len() ==> edge_in(#[trigger] g1[i], g2),
        forall|j: int| 0 <= j < g2.len() ==> g_has(g1, #[trigger] g2[j]),
    ensures
        geq(g1, g2),
{
    assert(geq(g1, g2)) by {
        reveal_with_fuel(geq, 1);
        reveal_with_fuel(edge_in, 1);
        reveal_with_fuel(g_has, 1);
    }
}

/// One covered edge, by its witness.
pub proof fn lemma_edge_in_intro(e: (ValModel, OpenEdgeModel), g: GraphModel, j: int)
    requires
        0 <= j < g.len(),
        peq(e, g[j]),
    ensures
        edge_in(e, g),
{
    reveal_with_fuel(edge_in, 1);
}

/// The witness behind a covered edge.
pub proof fn lemma_edge_in_elim(e: (ValModel, OpenEdgeModel), g: GraphModel)
    requires
        edge_in(e, g),
    ensures
        exists|j: int| 0 <= j < g.len() && peq(e, #[trigger] g[j]),
{
    reveal_with_fuel(edge_in, 1);
}

/// One member canonically equal to `e`, by its witness.
pub proof fn lemma_g_has_intro(g: GraphModel, e: (ValModel, OpenEdgeModel), i: int)
    requires
        0 <= i < g.len(),
        peq(g[i], e),
    ensures
        g_has(g, e),
{
    reveal_with_fuel(g_has, 1);
}

/// The witness behind a member canonically equal to `e`.
pub proof fn lemma_g_has_elim(g: GraphModel, e: (ValModel, OpenEdgeModel))
    requires
        g_has(g, e),
    ensures
        exists|i: int| 0 <= i < g.len() && peq(#[trigger] g[i], e),
{
    reveal_with_fuel(g_has, 1);
}

/// Every left edge of canonically equal graphs is covered on the right.
pub proof fn lemma_geq_left(g1: GraphModel, g2: GraphModel, i: int)
    requires
        geq(g1, g2),
        0 <= i < g1.len(),
    ensures
        edge_in(g1[i], g2),
{
    reveal_with_fuel(geq, 1);
    reveal_with_fuel(edge_in, 1);
    reveal_with_fuel(g_has, 1);
}

/// Every right edge of canonically equal graphs has a left partner.
pub proof fn lemma_geq_right(g1: GraphModel, g2: GraphModel, j: int)
    requires
        geq(g1, g2),
        0 <= j < g2.len(),
    ensures
        g_has(g1, g2[j]),
{
    reveal_with_fuel(geq, 1);
    reveal_with_fuel(edge_in, 1);
    reveal_with_fuel(g_has, 1);
}

/// `geq` fails once one left edge is uncovered.
pub proof fn lemma_geq_refute_left(g1: GraphModel, g2: GraphModel, i: int)
    requires
        0 <= i < g1.len(),
        !edge_in(g1[i], g2),
    ensures
        !geq(g1, g2),
{
    reveal_with_fuel(geq, 1);
    reveal_with_fuel(edge_in, 1);
    reveal_with_fuel(g_has, 1);
    if geq(g1, g2) {
        assert(edge_in(g1[i], g2));
    }
}

/// `geq` fails once one right edge is uncovered.
pub proof fn lemma_geq_refute_right(g1: GraphModel, g2: GraphModel, j: int)
    requires
        0 <= j < g2.len(),
        !g_has(g1, g2[j]),
    ensures
        !geq(g1, g2),
{
    reveal_with_fuel(geq, 1);
    reveal_with_fuel(edge_in, 1);
    reveal_with_fuel(g_has, 1);
    if geq(g1, g2) {
        assert(g_has(g1, g2[j]));
    }
}

/// The result of inserting the triple `(dst, label, src)`: unchanged if a
/// canonically equal edge is present, otherwise the edge is appended.
pub open spec fn gwith(g: GraphModel, dst: ValModel, label: ValModel, src: ValModel) -> GraphModel {
    let e = (dst, OpenEdgeModel { label: label, src: src });
    if g_has(g, e) {
        g
    } else {
        g.push(e)
    }
}

// ---------------------------------------------------------------------------
// The canonical equalities are equivalence relations
// ---------------------------------------------------------------------------

/// `veq` is reflexive.
pub proof fn lemma_veq_refl(a: ValModel)
    ensures
        veq(a, a),
    decreases a,
{
    match a {
        ValModel::Tuple(t) => {
            assert forall|i: int| 0 <= i < t.len() implies oeq(#[trigger] t[i], t[i]) by {
                lemma_oeq_refl(t[i]);
            }
        },
        ValModel::Graph(g) => {
            lemma_geq_refl(g);
        },
        _ => {},
    }
}

/// `oeq` is reflexive.
pub proof fn lemma_oeq_refl(a: OpenEdgeModel)
    ensures
        oeq(a, a),
    decreases a,
{
    lemma_veq_refl(a.label);
    lemma_veq_refl(a.src);
}

/// `peq` is reflexive.
pub proof fn lemma_peq_refl(a: (ValModel, OpenEdgeModel))
    ensures
        peq(a, a),
    decreases a,
{
    lemma_veq_refl(a.0);
    lemma_oeq_refl(a.1);
}

/// `geq` is reflexive.
#[verifier::rlimit(50)]
#[verifier::spinoff_prover]
pub proof fn lemma_geq_refl(g: GraphModel)
    ensures
        geq(g, g),
    decreases g,
{
    assert forall|i: int| 0 <= i < g.len() implies edge_in(#[trigger] g[i], g) by {
        reveal_with_fuel(edge_in, 1);
        lemma_peq_refl(g[i]);
        assert(peq(g[i], g[i]));
    }
    assert forall|j: int| 0 <= j < g.len() implies g_has(g, #[trigger] g[j]) by {
        reveal_with_fuel(g_has, 1);
        lemma_peq_refl(g[j]);
        assert(peq(g[j], g[j]));
    }
    lemma_geq_intro(g, g);
}

/// `veq` is symmetric.
pub proof fn lemma_veq_sym(a: ValModel, b: ValModel)
    ensures
        veq(a, b) == veq(b, a),
    decreases a, 0int,
{
    match (a, b) {
        (ValModel::Tuple(t1), ValModel::Tuple(t2)) => {
            if t1.len() == t2.len() {
                assert forall|i: int| 0 <= i < t1.len() implies (oeq(#[trigger] t1[i], t2[i])
                    == oeq(t2[i], t1[i])) by {
                    lemma_oeq_sym(t1[i], t2[i]);
                }
                assert forall|i: int| 0 <= i < t2.len() implies (oeq(#[trigger] t2[i], t1[i])
                    == oeq(t1[i], t2[i])) by {
                    lemma_oeq_sym(t1[i], t2[i]);
                }
            }
        },
        (ValModel::Graph(g1), ValModel::Graph(g2)) => {
            lemma_geq_sym(g1, g2);
        },
        _ => {},
    }
}

/// `oeq` is symmetric.
pub proof fn lemma_oeq_sym(a: OpenEdgeModel, b: OpenEdgeModel)
    ensures
        oeq(a, b) == oeq(b, a),
    decreases a, 0int,
{
    lemma_veq_sym(a.label, b.label);
    lemma_veq_sym(a.src, b.src);
}

/// `peq` is symmetric.
pub proof fn lemma_peq_sym(a: (ValModel, OpenEdgeModel), b: (ValModel, OpenEdgeModel))
    ensures
        peq(a, b) == peq(b, a),
    decreases a, 0int,
{
    lemma_veq_sym(a.0, b.0);
    lemma_oeq_sym(a.1, b.1);
}

/// `geq` is symmetric.
pub proof fn lemma_geq_sym(g1: GraphModel, g2: GraphModel)
    ensures
        geq(g1, g2) == geq(g2, g1),
    decreases g1, 3int,
{
    if geq(g1, g2) {
        lemma_geq_sym_fwd(g1, g2);
    }
    if geq(g2, g1) {
        lemma_geq_sym_bwd(g1, g2);
    }
}

#[verifier::rlimit(50)]
#[verifier::spinoff_prover]
proof fn lemma_geq_sym_fwd(g1: GraphModel, g2: GraphModel)
    requires
        geq(g1, g2),
    ensures
        geq(g2, g1),
    decreases g1, 1int,
{
    assert forall|i: int| 0 <= i < g2.len() implies edge_in(#[trigger] g2[i], g1) by {
        lemma_geq_right(g1, g2, i);
        lemma_g_has_elim(g1, g2[i]);
        let j = choose|j: int| 0 <= j < g1.len() && peq(#[trigger] g1[j], g2[i]);
        lemma_peq_sym(g1[j], g2[i]);
        lemma_edge_in_intro(g2[i], g1, j);
    }
    assert forall|j: int| 0 <= j < g1.len() implies g_has(g2, #[trigger] g1[j]) by {
        lemma_geq_left(g1, g2, j);
        lemma_edge_in_elim(g1[j], g2);
        let k = choose|k: int| 0 <= k < g2.len() && peq(g1[j], #[trigger] g2[k]);
        lemma_peq_sym(g1[j], g2[k]);
        lemma_g_has_intro(g2, g1[j], k);
    }
    lemma_geq_intro(g2, g1);
}

#[verifier::rlimit(50)]
#[verifier::spinoff_prover]
proof fn lemma_geq_sym_bwd(g1: GraphModel, g2: GraphModel)
    requires
        geq(g2, g1),
    ensures
        geq(g1, g2),
    decreases g1, 2int,
{
    lemma_geq_sym_bwd_a(g1, g2);
    lemma_geq_sym_bwd_b(g1, g2);
    lemma_geq_intro(g1, g2);
}

#[verifier::rlimit(50)]
#[verifier::spinoff_prover]
proof fn lemma_geq_sym_bwd_a(g1: GraphModel, g2: GraphModel)
    requires
        geq(g2, g1),
    ensures
        forall|i: int| 0 <= i < g1.len() ==> edge_in(#[trigger] g1[i], g2),
    decreases g1, 1int,
{
    assert forall|i: int| 0 <= i < g1.len() implies edge_in(#[trigger] g1[i], g2) by {
        lemma_geq_right(g2, g1, i);
        lemma_g_has_elim(g2, g1[i]);
        let j = choose|j: int| 0 <= j < g2.len() && peq(#[trigger] g2[j], g1[i]);
        lemma_peq_sym(g1[i], g2[j]);
        lemma_edge_in_intro(g1[i], g2, j);
    }
}

#[verifier::rlimit(50)]
#[verifier::spinoff_prover]
proof fn lemma_geq_sym_bwd_b(g1: GraphModel, g2: GraphModel)
    requires
        geq(g2, g1),
    ensures
        forall|j: int| 0 <= j < g2.len() ==> g_has(g1, #[trigger] g2[j]),
    decreases g1, 1int,
{
    assert forall|j: int| 0 <= j < g2.len() implies g_has(g1, #[trigger] g2[j]) by {
        lemma_geq_left(g2, g1, j);
        lemma_edge_in_elim(g2[j], g1);
        let i = choose|i: int| 0 <= i < g1.len() && peq(g2[j], #[trigger] g1[i]);
        lemma_peq_sym(g1[i], g2[j]);
        lemma_g_has_intro(g1, g2[j], i);
    }
}


/// `veq` is transitive.
pub proof fn lemma_veq_trans(a: ValModel, b: ValModel, c: ValModel)
    requires
        veq(a, b),
        veq(b, c),
    ensures
        veq(a, c),
    decreases a,
{
    match (a, b, c) {
        (ValModel::Tuple(t1), ValModel::Tuple(t2), ValModel::Tuple(t3)) => {
            assert forall|i: int| 0 <= i < t1.len() implies oeq(#[trigger] t1[i], t3[i]) by {
                assert(oeq(t1[i], t2[i]));
                assert(oeq(t2[i], t3[i]));
                lemma_oeq_trans(t1[i], t2[i], t3[i]);
            }
        },
        (ValModel::Graph(g1), ValModel::Graph(g2), ValModel::Graph(g3)) => {
            lemma_geq_trans(g1, g2, g3);
        },
        _ => {},
    }
}

/// `oeq` is transitive.
pub proof fn lemma_oeq_trans(a: OpenEdgeModel, b: OpenEdgeModel, c: OpenEdgeModel)
    requires
        oeq(a, b),
        oeq(b, c),
    ensures
        oeq(a, c),
    decreases a,
{
    lemma_veq_trans(a.label, b.label, c.label);
    lemma_veq_trans(a.src, b.src, c.src);
}

/// `peq` is transitive.
pub proof fn lemma_peq_trans(
    a: (ValModel, OpenEdgeModel),
    b: (ValModel, OpenEdgeModel),
    c: (ValModel, OpenEdgeModel),
)
    requires
        peq(a, b),
        peq(b, c),
    ensures
        peq(a, c),
    decreases a,
{
    lemma_veq_trans(a.0, b.0, c.0);
    lemma_oeq_trans(a.1, b.1, c.1);
}

/// `geq` is transitive.
pub proof fn lemma_geq_trans(g1: GraphModel, g2: GraphModel, g3: GraphModel)
    requires
        geq(g1, g2),
        geq(g2, g3),
    ensures
        geq(g1, g3),
    decreases g1, 2int,
{
    lemma_geq_trans_a(g1, g2, g3);
    lemma_geq_trans_b(g1, g2, g3);
    lemma_geq_intro(g1, g3);
}

#[verifier::rlimit(50)]
#[verifier::spinoff_prover]
proof fn lemma_geq_trans_a(g1: GraphModel, g2: GraphModel, g3: GraphModel)
    requires
        geq(g1, g2),
        geq(g2, g3),
    ensures
        forall|i: int| 0 <= i < g1.len() ==> edge_in(#[trigger] g1[i], g3),
    decreases g1, 1int,
{
    assert forall|i: int| 0 <= i < g1.len() implies edge_in(#[trigger] g1[i], g3) by {
        lemma_geq_left(g1, g2, i);
        lemma_edge_in_elim(g1[i], g2);
        let j = choose|j: int| 0 <= j < g2.len() && peq(g1[i], #[trigger] g2[j]);
        lemma_geq_left(g2, g3, j);
        lemma_edge_in_elim(g2[j], g3);
        let k = choose|k: int| 0 <= k < g3.len() && peq(g2[j], #[trigger] g3[k]);
        lemma_peq_trans(g1[i], g2[j], g3[k]);
        lemma_edge_in_intro(g1[i], g3, k);
    }
}

#[verifier::rlimit(50)]
#[verifier::spinoff_prover]
proof fn lemma_geq_trans_b(g1: GraphModel, g2: GraphModel, g3: GraphModel)
    requires
        geq(g1, g2),
        geq(g2, g3),
    ensures
        forall|k: int| 0 <= k < g3.len() ==> g_has(g1, #[trigger] g3[k]),
    decreases g1, 1int,
{
    assert forall|k: int| 0 <= k < g3.len() implies g_has(g1, #[trigger] g3[k]) by {
        lemma_geq_right(g2, g3, k);
        lemma_g_has_elim(g2, g3[k]);
        let j = choose|j: int| 0 <= j < g2.len() && peq(#[trigger] g2[j], g3[k]);
        lemma_geq_right(g1, g2, j);
        lemma_g_has_elim(g1, g2[j]);
        let i = choose|i: int| 0 <= i < g1.len() && peq(#[trigger] g1[i], g2[j]);
        lemma_peq_trans(g1[i], g2[j], g3[k]);
        lemma_g_has_intro(g1, g3[k], i);
    }
}

// ---------------------------------------------------------------------------
// Laws of insertion
// ---------------------------------------------------------------------------

/// Membership after an insertion: exactly the old members and the inserted
/// triple.
#[verifier::rlimit(50)]
#[verifier::spinoff_prover]
pub proof fn lemma_gwith_membership(
    g: GraphModel,
    dst: ValModel,
    label: ValModel,
    src: ValModel,
    e: (ValModel, OpenEdgeModel),
)
    ensures
        g_has(gwith(g, dst, label, src), e) == (g_has(g, e) || peq(
            (dst, OpenEdgeModel { label: label, src: src }),
            e,
        )),
{
    reveal_with_fuel(g_has, 1);
    reveal_with_fuel(edge_in, 1);
    let ins = (dst, OpenEdgeModel { label: label, src: src });
    let g2 = gwith(g, dst, label, src);
    if g_has(g, ins) {
        // the graph is unchanged; a member equal to `ins` stands for `e`
        // whenever `peq(ins, e)`
        if peq(ins, e) {
            let i = choose|i: int| 0 <= i < g.len() && peq(#[trigger] g[i], ins);
            lemma_peq_trans(g[i], ins, e);
            assert(g_has(g, e));
        }
    } else {
        if g_has(g, e) {
            let i = choose|i: int| 0 <= i < g.len() && peq(#[trigger] g[i], e);
            assert(g2[i] == g[i]);
            assert(g_has(g2, e));
        }
        if peq(ins, e) {
            assert(g2[g.len() as int] == ins);
            assert(g_has(g2, e));
        }
        if g_has(g2, e) {
            let i = choose|i: int| 0 <= i < g2.len() && peq(#[trigger] g2[i], e);
            if i < g.len() {
                assert(g[i] == g2[i]);
                assert(g_has(g, e));
            } else {
                assert(g2[i] == ins);
            }
        }
    }
}

/// Inserting the same triple twice is the same as inserting it once.
pub proof fn lemma_with_idempotent(g: GraphModel, dst: ValModel, label: ValModel, src: ValModel)
    ensures
        gwith(gwith(g, dst, label, src), dst, label, src) == gwith(g, dst, label, src),
{
    reveal_with_fuel(g_has, 1);
    reveal_with_fuel(edge_in, 1);
    let e = (dst, OpenEdgeModel { label: label, src: src });
    let g1 = gwith(g, dst, label, src);
    lemma_peq_refl(e);
    if !g_has(g, e) {
        assert(g1[g.len() as int] == e);
        assert(g_has(g1, e));
    }
}

/// The graph built by inserting the given triples in order, starting from
/// the empty graph.
pub open spec fn graph_from(triples: Seq<(ValModel, OpenEdgeModel)>) -> GraphModel
    decreases triples.len(),
{
    if triples.len() == 0 {
        Seq::empty()
    } else {
        let e = triples.last();
        gwith(graph_from(triples.drop_last()), e.0, e.1.label, e.1.src)
    }
}

/// The members of the built graph are exactly the inserted triples, up to
/// canonical equality.
#[verifier::rlimit(50)]
#[verifier::spinoff_prover]
pub proof fn lemma_graph_from_has(
    triples: Seq<(ValModel, OpenEdgeModel)>,
    e: (ValModel, OpenEdgeModel),
)
    ensures
        g_has(graph_from(triples), e) == g_has(triples, e),
    decreases triples.len(),
{
    reveal_with_fuel(g_has, 1);
    if triples.len() > 0 {
        let t0 = triples.drop_last();
        let last = triples.last();
        lemma_graph_from_has(t0, e);
        lemma_gwith_membership(graph_from(t0), last.0, last.1.label, last.1.src, e);
        assert(last == (last.0, OpenEdgeModel { label: last.1.label, src: last.1.src }));
        if g_has(t0, e) {
            let i = choose|i: int| 0 <= i < t0.len() && peq(#[trigger] t0[i], e);
            assert(triples[i] == t0[i]);
            assert(g_has(triples, e));
        }
        if peq(last, e) {
            assert(peq(triples[triples.len() - 1], e));
            assert(g_has(triples, e));
        }
        if g_has(triples, e) {
            let i = choose|i: int| 0 <= i < triples.len() && peq(#[trigger] triples[i], e);
            if i < triples.len() - 1 {
                assert(t0[i] == triples[i]);
                assert(g_has(t0, e));
            } else {
                assert(triples[i] == last);
            }
        }
    }
}

/// Each edge of the built graph is one of the inserted triples, literally.
pub proof fn lemma_graph_from_elems(triples: Seq<(ValModel, OpenEdgeModel)>)
    ensures
        forall|i: int|
            0 <= i < graph_from(triples).len() ==> exists|k: int|
                0 <= k < triples.len() && triples[k] == #[trigger] graph_from(triples)[i],
    decreases triples.len(),
{
    if triples.len() > 0 {
        let t0 = triples.drop_last();
        let last = triples.last();
        let g0 = graph_from(t0);
        lemma_graph_from_elems(t0);
        assert forall|i: int| 0 <= i < graph_from(triples).len() implies exists|k: int|
            0 <= k < triples.len() && triples[k] == #[trigger] graph_from(triples)[i] by {
            if i < g0.len() {
                assert(graph_from(triples)[i] == g0[i]);
                let k = choose|k: int| 0 <= k < t0.len() && t0[k] == #[trigger] g0[i];
                assert(triples[k] == t0[k]);
                assert(triples[k] == graph_from(triples)[i]);
            } else {
                assert(graph_from(triples)[i] == last);
                assert(triples[triples.len() - 1] == last);
            }
        }
    }
}

/// Order independence: for any multiset of edge triples, every insertion
/// order into the empty graph builds canonically equal graphs.
#[verifier::rlimit(100)]
#[verifier::spinoff_prover]
pub proof fn lemma_order_independence(
    t1: Seq<(ValModel, OpenEdgeModel)>,
    t2: Seq<(ValModel, OpenEdgeModel)>,
)
    requires
        t1.to_multiset() == t2.to_multiset(),
    ensures
        geq(graph_from(t1), graph_from(t2)),
{
    let a = graph_from(t1);
    let b = graph_from(t2);
    broadcast use vstd::seq_lib::group_to_multiset_ensures;

    lemma_graph_from_elems(t1);
    lemma_graph_from_elems(t2);
    assert forall|i: int| 0 <= i < a.len() implies edge_in(#[trigger] a[i], b) by {
        reveal_with_fuel(g_has, 1);
        reveal_with_fuel(edge_in, 1);
        let k = choose|k: int| 0 <= k < t1.len() && t1[k] == #[trigger] a[i];
        assert(t1.contains(t1[k]));
        assert(t1.to_multiset().count(t1[k]) > 0);
        assert(t2.to_multiset().count(t1[k]) > 0);
        assert(t2.contains(t1[k]));
        let k2 = choose|k2: int| 0 <= k2 < t2.len() && #[trigger] t2[k2] == t1[k];
        lemma_peq_refl(a[i]);
        assert(peq(t2[k2], a[i]));
        assert(g_has(t2, a[i]));
        lemma_graph_from_has(t2, a[i]);
        assert(g_has(b, a[i]));
        let j = choose|j: int| 0 <= j < b.len() && peq(#[trigger] b[j], a[i]);
        lemma_peq_sym(b[j], a[i]);
        assert(peq(a[i], b[j]));
    }
    assert forall|j: int| 0 <= j < b.len() implies g_has(a, #[trigger] b[j]) by {
        reveal_with_fuel(g_has, 1);
        reveal_with_fuel(edge_in, 1);
        let k = choose|k: int| 0 <= k < t2.len() && t2[k] == #[trigger] b[j];
        assert(t2.contains(t2[k]));
        assert(t2.to_multiset().count(t2[k]) > 0);
        assert(t1.to_multiset().count(t2[k]) > 0);
        assert(t1.contains(t2[k]));
        let k2 = choose|k2: int| 0 <= k2 < t1.len() && #[trigger] t1[k2] == t2[k];
        lemma_peq_refl(b[j]);
        assert(peq(t1[k2], b[j]));
        assert(g_has(t1, b[j]));
        lemma_graph_from_has(t1, b[j]);
    }
    lemma_geq_intro(a, b);
}

/// Insertion respects canonical equality: canonically equal inputs build
/// canonically equal graphs, so order independence carries through nested
/// graphs used as destination, label, or source.
#[verifier::rlimit(50)]
#[verifier::spinoff_prover]
pub proof fn lemma_gwith_congruence(
    g1: GraphModel,
    g2: GraphModel,
    d1: ValModel,
    d2: ValModel,
    l1: ValModel,
    l2: ValModel,
    s1: ValModel,
    s2: ValModel,
)
    requires
        geq(g1, g2),
        veq(d1, d2),
        veq(l1, l2),
        veq(s1, s2),
    ensures
        geq(gwith(g1, d1, l1, s1), gwith(g2, d2, l2, s2)),
{
    let ins1 = (d1, OpenEdgeModel { label: l1, src: s1 });
    let ins2 = (d2, OpenEdgeModel { label: l2, src: s2 });
    let a = gwith(g1, d1, l1, s1);
    let b = gwith(g2, d2, l2, s2);
    assert(peq(ins1, ins2));
    assert forall|i: int| 0 <= i < a.len() implies edge_in(#[trigger] a[i], b) by {
        lemma_gwith_b_side(g1, g2, ins1, ins2, a, b, i);
    }
    assert forall|j: int| 0 <= j < b.len() implies g_has(a, #[trigger] b[j]) by {
        lemma_gwith_a_side(g1, g2, ins1, ins2, a, b, j);
    }
    lemma_geq_intro(a, b);
}

#[verifier::rlimit(50)]
#[verifier::spinoff_prover]
proof fn lemma_gwith_b_side(
    g1: GraphModel,
    g2: GraphModel,
    ins1: (ValModel, OpenEdgeModel),
    ins2: (ValModel, OpenEdgeModel),
    a: GraphModel,
    b: GraphModel,
    i: int,
)
    requires
        geq(g1, g2),
        peq(ins1, ins2),
        a == gwith(g1, ins1.0, ins1.1.label, ins1.1.src),
        b == gwith(g2, ins2.0, ins2.1.label, ins2.1.src),
        0 <= i < a.len(),
    ensures
        edge_in(a[i], b),
{
    reveal_with_fuel(g_has, 1);
    reveal_with_fuel(edge_in, 1);
    assert(ins1 == (ins1.0, OpenEdgeModel { label: ins1.1.label, src: ins1.1.src }));
    assert(ins2 == (ins2.0, OpenEdgeModel { label: ins2.1.label, src: ins2.1.src }));
    if i < g1.len() {
        // an old edge of g1: its partner in g2 still stands in b
        assert(a[i] == g1[i]);
        assert(edge_in(g1[i], g2));
        let j = choose|j: int| 0 <= j < g2.len() && peq(g1[i], #[trigger] g2[j]);
        if g_has(g2, ins2) {
            assert(b == g2);
            assert(peq(a[i], b[j]));
        } else {
            assert(b[j] == g2[j]);
            assert(peq(a[i], b[j]));
        }
    } else {
        // the inserted edge
        assert(a[i] == ins1);
        if g_has(g2, ins2) {
            let j = choose|j: int| 0 <= j < g2.len() && peq(#[trigger] g2[j], ins2);
            lemma_peq_sym(g2[j], ins2);
            lemma_peq_trans(ins1, ins2, g2[j]);
            assert(b == g2);
            assert(peq(a[i], b[j]));
        } else {
            assert(b[g2.len() as int] == ins2);
            assert(peq(a[i], b[g2.len() as int]));
        }
    }
}

#[verifier::rlimit(50)]
#[verifier::spinoff_prover]
proof fn lemma_gwith_a_side(
    g1: GraphModel,
    g2: GraphModel,
    ins1: (ValModel, OpenEdgeModel),
    ins2: (ValModel, OpenEdgeModel),
    a: GraphModel,
    b: GraphModel,
    j: int,
)
    requires
        geq(g1, g2),
        peq(ins1, ins2),
        a == gwith(g1, ins1.0, ins1.1.label, ins1.1.src),
        b == gwith(g2, ins2.0, ins2.1.label, ins2.1.src),
        0 <= j < b.len(),
    ensures
        g_has(a, b[j]),
{
    reveal_with_fuel(g_has, 1);
    reveal_with_fuel(edge_in, 1);
    assert(ins1 == (ins1.0, OpenEdgeModel { label: ins1.1.label, src: ins1.1.src }));
    assert(ins2 == (ins2.0, OpenEdgeModel { label: ins2.1.label, src: ins2.1.src }));
    if j < g2.len() {
        assert(b[j] == g2[j]);
        assert(g_has(g1, g2[j]));
        let i = choose|i: int| 0 <= i < g1.len() && peq(#[trigger] g1[i], g2[j]);
        if g_has(g1, ins1) {
            assert(a == g1);
            assert(peq(a[i], b[j]));
        } else {
            assert(a[i] == g1[i]);
            assert(peq(a[i], b[j]));
        }
    } else {
        assert(b[j] == ins2);
        if g_has(g1, ins1) {
            let i = choose|i: int| 0 <= i < g1.len() && peq(#[trigger] g1[i], ins1);
            lemma_peq_trans(g1[i], ins1, ins2);
            assert(a == g1);
            assert(peq(a[i], b[j]));
        } else {
            assert(a[g1.len() as int] == ins1);
            assert(peq(a[g1.len() as int], b[j]));
        }
    }
}

// ---------------------------------------------------------------------------
// Executable types and their views
// ---------------------------------------------------------------------------

/// An edge not yet attached to a destination: `(label, source)`.
#[derive(Debug)]
pub struct OpenEdge(pub Value, pub Value);

/// A decoded value.
#[derive(Debug)]
pub enum Value {
    Name(String),
    Number(i64),
    Tuple(Vec<OpenEdge>),
    Graph(Graph),
}

/// A persistent set of edge triples, indexed by destination.
#[derive(Debug)]
pub struct Graph {
    edges: Vec<(Value, OpenEdge)>,
}

/// The model of a stored `(destination, open edge)` pair.
pub open spec fn pm(p: (Value, OpenEdge)) -> (ValModel, OpenEdgeModel)
    decreases p,
{
    (vmodel(p.0), oemodel(p.1))
}

/// The model of a stored edge sequence.
pub open spec fn edges_model(s: Seq<(Value, OpenEdge)>) -> GraphModel
    decreases s,
{
    if s.len() == 0 {
        Seq::empty()
    } else {
        edges_model(s.drop_last()).push(pm(s.last()))
    }
}

/// The model of a graph.
pub closed spec fn gmodel(g: Graph) -> GraphModel
    decreases g,
{
    edges_model(g.edges@)
}

/// The model of a tuple's elements.
pub open spec fn oes_model(s: Seq<OpenEdge>) -> Seq<OpenEdgeModel>
    decreases s,
{
    if s.len() == 0 {
        Seq::empty()
    } else {
        oes_model(s.drop_last()).push(oemodel(s.last()))
    }
}

/// The model of a value.
pub open spec fn vmodel(v: Value) -> ValModel
    decreases v,
{
    match v {
        Value::Name(s) => ValModel::Name(s@),
        Value::Number(n) => ValModel::Number(n as int),
        Value::Tuple(es) => ValModel::Tuple(oes_model(es@)),
        Value::Graph(g) => ValModel::Graph(gmodel(g)),
    }
}

/// The model of an open edge.
pub open spec fn oemodel(e: OpenEdge) -> OpenEdgeModel
    decreases e,
{
    OpenEdgeModel { label: vmodel(e.0), src: vmodel(e.1) }
}

impl View for Value {
    type V = ValModel;

    open spec fn view(&self) -> ValModel {
        vmodel(*self)
    }
}

impl View for OpenEdge {
    type V = OpenEdgeModel;

    open spec fn view(&self) -> OpenEdgeModel {
        oemodel(*self)
    }
}

impl View for Graph {
    type V = GraphModel;

    open spec fn view(&self) -> GraphModel {
        gmodel(*self)
    }
}

/// `edges_model` maps the sequence elementwise.
pub proof fn lemma_edges_model(s: Seq<(Value, OpenEdge)>)
    ensures
        edges_model(s).len() == s.len(),
        forall|i: int| 0 <= i < s.len() ==> #[trigger] edges_model(s)[i] == pm(s[i]),
    decreases s.len(),
{
    if s.len() > 0 {
        lemma_edges_model(s.drop_last());
        assert forall|i: int| 0 <= i < s.len() implies #[trigger] edges_model(s)[i] == pm(s[i]) by {
            if i < s.len() - 1 {
                assert(s.drop_last()[i] == s[i]);
            } else {
                assert(s.last() == s[i]);
            }
        }
    }
}

/// `oes_model` maps the sequence elementwise.
pub proof fn lemma_oes_model(s: Seq<OpenEdge>)
    ensures
        oes_model(s).len() == s.len(),
        forall|i: int| 0 <= i < s.len() ==> #[trigger] oes_model(s)[i] == oemodel(s[i]),
    decreases s.len(),
{
    if s.len() > 0 {
        lemma_oes_model(s.drop_last());
        assert forall|i: int| 0 <= i < s.len() implies #[trigger] oes_model(s)[i] == oemodel(
            s[i],
        ) by {
            if i < s.len() - 1 {
                assert(s.drop_last()[i] == s[i]);
            } else {
                assert(s.last() == s[i]);
            }
        }
    }
}

// ---------------------------------------------------------------------------
// Executable canonical equality
// ---------------------------------------------------------------------------

fn value_equiv(a: &Value, b: &Value) -> (r: bool)
    ensures
        r == veq(a@, b@),
    decreases *a, 0int,
{
    match (a, b) {
        (Value::Name(s1), Value::Name(s2)) => s1.eq(s2),
        (Value::Number(n1), Value::Number(n2)) => *n1 == *n2,
        (Value::Tuple(t1), Value::Tuple(t2)) => tuple_equiv(t1, t2),
        (Value::Graph(g1), Value::Graph(g2)) => edges_equiv(&g1.edges, &g2.edges),
        _ => false,
    }
}

fn open_edge_equiv(a: &OpenEdge, b: &OpenEdge) -> (r: bool)
    ensures
        r == oeq(a@, b@),
    decreases *a, 0int,
{
    value_equiv(&a.0, &b.0) && value_equiv(&a.1, &b.1)
}

fn pair_equiv(a: &(Value, OpenEdge), b: &(Value, OpenEdge)) -> (r: bool)
    ensures
        r == peq(pm(*a), pm(*b)),
    decreases *a, 0int,
{
    value_equiv(&a.0, &b.0) && open_edge_equiv(&a.1, &b.1)
}

fn tuple_equiv(t1: &Vec<OpenEdge>, t2: &Vec<OpenEdge>) -> (r: bool)
    ensures
        r == veq(ValModel::Tuple(oes_model(t1@)), ValModel::Tuple(oes_model(t2@))),
    decreases *t1, 1int,
{
    proof {
        lemma_oes_model(t1@);
        lemma_oes_model(t2@);
    }
    if t1.len() != t2.len() {
        return false;
    }
    let n = t1.len();
    let mut i: usize = 0;
    while i < n
        invariant
            n == t1@.len(),
            t1@.len() == t2@.len(),
            i <= n,
            oes_model(t1@).len() == t1@.len(),
            oes_model(t2@).len() == t2@.len(),
            forall|k: int| 0 <= k < t1@.len() ==> #[trigger] oes_model(t1@)[k] == oemodel(t1@[k]),
            forall|k: int| 0 <= k < t2@.len() ==> #[trigger] oes_model(t2@)[k] == oemodel(t2@[k]),
            forall|k: int| 0 <= k < i ==> oeq(#[trigger] oes_model(t1@)[k], oes_model(t2@)[k]),
        decreases n - i,
    {
        if !open_edge_equiv(&t1[i], &t2[i]) {
            assert(!oeq(oes_model(t1@)[i as int], oes_model(t2@)[i as int]));
            return false;
        }
        i += 1;
    }
    true
}

/// Whether some edge of `b` is canonically equal to `e`; the `peq` keeps
/// `e` on the left.
fn edge_matches_any(e: &(Value, OpenEdge), b: &Vec<(Value, OpenEdge)>) -> (r: bool)
    ensures
        r == edge_in(pm(*e), edges_model(b@)),
    decreases *e, 1int,
{
    proof {
        reveal_with_fuel(edge_in, 1);
        lemma_edges_model(b@);
    }
    let ghost bm = edges_model(b@);
    let n = b.len();
    let mut j: usize = 0;
    while j < n
        invariant
            n == b@.len(),
            bm == edges_model(b@),
            bm.len() == b@.len(),
            forall|k: int| 0 <= k < b@.len() ==> #[trigger] bm[k] == pm(b@[k]),
            j <= n,
            forall|k: int| 0 <= k < j ==> !peq(pm(*e), #[trigger] bm[k]),
        decreases n - j,
    {
        if pair_equiv(e, &b[j]) {
            proof {
                reveal_with_fuel(edge_in, 1);
                assert(peq(pm(*e), bm[j as int]));
                assert(edge_in(pm(*e), bm));
            }
            return true;
        }
        j += 1;
    }
    proof {
        reveal_with_fuel(edge_in, 1);
        assert(!edge_in(pm(*e), bm));
    }
    false
}

/// Whether some edge of `a` is canonically equal to `e`; the `peq` keeps
/// the `a`-side edge on the left.
fn any_matches_edge(a: &Vec<(Value, OpenEdge)>, e: &(Value, OpenEdge)) -> (r: bool)
    ensures
        r == g_has(edges_model(a@), pm(*e)),
    decreases *a, 1int,
{
    proof {
        reveal_with_fuel(g_has, 1);
        lemma_edges_model(a@);
    }
    let ghost am = edges_model(a@);
    let n = a.len();
    let mut i: usize = 0;
    while i < n
        invariant
            n == a@.len(),
            am == edges_model(a@),
            am.len() == a@.len(),
            forall|k: int| 0 <= k < a@.len() ==> #[trigger] am[k] == pm(a@[k]),
            i <= n,
            forall|k: int| 0 <= k < i ==> !peq(#[trigger] am[k], pm(*e)),
        decreases n - i,
    {
        if pair_equiv(&a[i], e) {
            proof {
                reveal_with_fuel(g_has, 1);
                assert(peq(am[i as int], pm(*e)));
                assert(g_has(am, pm(*e)));
            }
            return true;
        }
        i += 1;
    }
    proof {
        reveal_with_fuel(g_has, 1);
        assert(!g_has(am, pm(*e)));
    }
    false
}

#[verifier::rlimit(100)]
#[verifier::spinoff_prover]
fn edges_equiv(a: &Vec<(Value, OpenEdge)>, b: &Vec<(Value, OpenEdge)>) -> (r: bool)
    ensures
        r == geq(edges_model(a@), edges_model(b@)),
    decreases *a, 2int,
{
    proof {
        lemma_edges_model(a@);
        lemma_edges_model(b@);
    }
    let ghost am = edges_model(a@);
    let ghost bm = edges_model(b@);
    let na = a.len();
    let mut i: usize = 0;
    while i < na
        invariant
            na == a@.len(),
            am == edges_model(a@),
            bm == edges_model(b@),
            am.len() == a@.len(),
            bm.len() == b@.len(),
            forall|k: int| 0 <= k < a@.len() ==> #[trigger] am[k] == pm(a@[k]),
            forall|k: int| 0 <= k < b@.len() ==> #[trigger] bm[k] == pm(b@[k]),
            i <= na,
            forall|k: int| 0 <= k < i ==> edge_in(#[trigger] am[k], bm),
        decreases na - i,
    {
        if !edge_matches_any(&a[i], b) {
            assert(!edge_in(am[i as int], bm));
            proof {
                lemma_geq_refute_left(am, bm, i as int);
            }
            return false;
        }
        assert(edge_in(am[i as int], bm));
        i += 1;
    }
    let nb = b.len();
    let mut j: usize = 0;
    while j < nb
        invariant
            nb == b@.len(),
            am == edges_model(a@),
            bm == edges_model(b@),
            am.len() == a@.len(),
            bm.len() == b@.len(),
            forall|k: int| 0 <= k < a@.len() ==> #[trigger] am[k] == pm(a@[k]),
            forall|k: int| 0 <= k < b@.len() ==> #[trigger] bm[k] == pm(b@[k]),
            j <= nb,
            forall|k: int| 0 <= k < am.len() ==> edge_in(#[trigger] am[k], bm),
            forall|k: int| 0 <= k < j ==> g_has(am, #[trigger] bm[k]),
        decreases nb - j,
    {
        if !any_matches_edge(a, &b[j]) {
            assert(!g_has(am, bm[j as int]));
            proof {
                lemma_geq_refute_right(am, bm, j as int);
            }
            return false;
        }
        assert(g_has(am, bm[j as int]));
        j += 1;
    }
    proof {
        lemma_geq_intro(am, bm);
    }
    true
}

// ---------------------------------------------------------------------------
// Cloning (the persistent `with` hands out a fresh copy)
// ---------------------------------------------------------------------------

fn clone_value(v: &Value) -> (r: Value)
    ensures
        r@ == v@,
    decreases *v, 0int,
{
    match v {
        Value::Name(s) => Value::Name(s.clone()),
        Value::Number(n) => Value::Number(*n),
        Value::Tuple(es) => {
            let out = clone_open_edges(es);
            proof {
                lemma_oes_model(out@);
                lemma_oes_model(es@);
                assert forall|k: int| 0 <= k < es@.len() implies #[trigger] oes_model(out@)[k]
                    == oes_model(es@)[k] by {
                    assert(out@[k]@ == es@[k]@);
                }
                assert(oes_model(out@) =~= oes_model(es@));
            }
            Value::Tuple(out)
        },
        Value::Graph(g) => {
            let edges = clone_edges(&g.edges);
            Value::Graph(Graph { edges })
        },
    }
}

fn clone_open_edge(e: &OpenEdge) -> (r: OpenEdge)
    ensures
        r@ == e@,
    decreases *e, 0int,
{
    OpenEdge(clone_value(&e.0), clone_value(&e.1))
}

fn clone_open_edges(es: &Vec<OpenEdge>) -> (r: Vec<OpenEdge>)
    ensures
        r@.len() == es@.len(),
        forall|k: int| 0 <= k < es@.len() ==> #[trigger] r@[k]@ == es@[k]@,
    decreases *es, 1int,
{
    let mut out: Vec<OpenEdge> = Vec::new();
    let n = es.len();
    let mut i: usize = 0;
    while i < n
        invariant
            n == es@.len(),
            out@.len() == i,
            i <= n,
            forall|k: int| 0 <= k < i ==> #[trigger] out@[k]@ == es@[k]@,
        decreases n - i,
    {
        out.push(clone_open_edge(&es[i]));
        i += 1;
    }
    out
}

fn clone_pair(p: &(Value, OpenEdge)) -> (r: (Value, OpenEdge))
    ensures
        pm(r) == pm(*p),
    decreases *p, 0int,
{
    (clone_value(&p.0), clone_open_edge(&p.1))
}

fn clone_edges(es: &Vec<(Value, OpenEdge)>) -> (r: Vec<(Value, OpenEdge)>)
    ensures
        edges_model(r@) == edges_model(es@),
    decreases *es, 1int,
{
    let mut out: Vec<(Value, OpenEdge)> = Vec::new();
    let n = es.len();
    let mut i: usize = 0;
    while i < n
        invariant
            n == es@.len(),
            out@.len() == i,
            i <= n,
            forall|k: int| 0 <= k < i ==> pm(#[trigger] out@[k]) == pm(es@[k]),
        decreases n - i,
    {
        out.push(clone_pair(&es[i]));
        i += 1;
    }
    proof {
        lemma_edges_model(out@);
        lemma_edges_model(es@);
        assert forall|k: int| 0 <= k < es@.len() implies #[trigger] edges_model(out@)[k]
            == edges_model(es@)[k] by {
            assert(pm(out@[k]) == pm(es@[k]));
        }
        assert(edges_model(out@) =~= edges_model(es@));
    }
    out
}

// ---------------------------------------------------------------------------
// Equality of the executable types is the canonical equality
// ---------------------------------------------------------------------------

impl PartialEq for Value {
    fn eq(&self, other: &Value) -> (r: bool) {
        value_equiv(self, other)
    }
}

impl vstd::std_specs::cmp::PartialEqSpecImpl for Value {
    open spec fn obeys_eq_spec() -> bool {
        true
    }

    open spec fn eq_spec(&self, other: &Value) -> bool {
        veq(vmodel(*self), vmodel(*other))
    }
}

impl PartialEq for OpenEdge {
    fn eq(&self, other: &OpenEdge) -> (r: bool) {
        open_edge_equiv(self, other)
    }
}

impl vstd::std_specs::cmp::PartialEqSpecImpl for OpenEdge {
    open spec fn obeys_eq_spec() -> bool {
        true
    }

    open spec fn eq_spec(&self, other: &OpenEdge) -> bool {
        oeq(oemodel(*self), oemodel(*other))
    }
}

impl PartialEq for Graph {
    fn eq(&self, other: &Graph) -> (r: bool) {
        edges_equiv(&self.edges, &other.edges)
    }
}

impl vstd::std_specs::cmp::PartialEqSpecImpl for Graph {
    open spec fn obeys_eq_spec() -> bool {
        true
    }

    open spec fn eq_spec(&self, other: &Graph) -> bool {
        geq(gmodel(*self), gmodel(*other))
    }
}

// ---------------------------------------------------------------------------
// Construction
// ---------------------------------------------------------------------------

/// The empty tuple value; the sentinel meaning "no explicit label yet".
pub fn zero_tuple() -> (r: Value)
    ensures
        r@ == zero_tuple_model(),
{
    let r = Value::Tuple(Vec::new());
    proof {
        assert(r@ =~= zero_tuple_model());
    }
    r
}

impl Graph {
    /// The graph with no edges.
    pub fn new() -> (g: Graph)
        ensures
            g@ == Seq::<(ValModel, OpenEdgeModel)>::empty(),
    {
        let g = Graph { edges: Vec::new() };
        proof {
            assert(g@ =~= Seq::<(ValModel, OpenEdgeModel)>::empty());
        }
        g
    }

    /// The graph's edges as `(destination, open edge)` pairs, in insertion
    /// order, for callers that need to walk the edge set or feed it to a
    /// hasher. A hash that ignores insertion order, as this data model
    /// requires, can be built by folding the per-edge hashes with a
    /// commutative combination (a wrapping sum): the result depends only on
    /// what this list holds, not on the order `with` was called in. std's
    /// `Hash` itself stands outside the verified surface: its `Hasher`
    /// type parameter cannot be reasoned about here, and a derived `Hash`
    /// would depend on insertion order.
    pub fn edges(&self) -> (r: Vec<(Value, OpenEdge)>)
        ensures
            edges_model(r@) == self@,
    {
        clone_edges(&self.edges)
    }

    /// The graph holding this graph's edges and the triple
    /// `(dst_val, edge_val, src_val)`. The receiver is untouched;
    /// re-inserting an edge already present returns an equal graph.
    pub fn with(&self, dst_val: Value, edge_val: Value, src_val: Value) -> (g: Graph)
        ensures
            g@ == gwith(self@, dst_val@, edge_val@, src_val@),
    {
        let pair = (dst_val, OpenEdge(edge_val, src_val));
        let ghost psnap = pair;
        let ghost e = pm(psnap);
        proof {
            assert(e == (dst_val@, OpenEdgeModel { label: edge_val@, src: src_val@ }));
        }
        let present = any_matches_edge(&self.edges, &pair);
        let mut edges = clone_edges(&self.edges);
        let ghost pre = edges@;
        if !present {
            edges.push(pair);
            proof {
                assert(edges@.drop_last() =~= pre);
                assert(edges@.last() == psnap);
                assert(edges_model(edges@) == edges_model(pre).push(e));
            }
        }
        let g = Graph { edges };
        g
    }
}


} // verus!

