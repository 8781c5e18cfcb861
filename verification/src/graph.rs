//! A generic destination-indexed graph for building graphs programmatically:
//! each root value maps to the set of open edges attached to it.
//!
//! Insertion is persistent and set-like: `with` leaves the receiver
//! untouched and adds a `(root, edge)` pair only when no equal pair is
//! already present, and `==` compares the pair sets, ignoring insertion
//! order. Equality of the generic payloads is whatever their `PartialEq`
//! means, so every such contract holds under `payloads_reliable`: the
//! payloads' `==` agrees with its specification and their `clone` returns
//! the value cloned.

use vstd::prelude::*;
use vstd::std_specs::cmp::PartialEqSpec;

verus! {

/// The source of an open edge: a plain value or an ordered tuple of edges.
#[derive(Debug)]
pub enum OpenEdgeSource<E, V> {
    Value(V),
    Tuple(Vec<OpenEdge<E, V>>),
}

/// An edge not yet attached to a root: its edge value and its source.
#[derive(Debug)]
pub struct OpenEdge<E, V> {
    value: E,
    source: OpenEdgeSource<E, V>,
}

/// A graph: the distinct `(root, open edge)` pairs in insertion order.
#[derive(Debug)]
pub struct Graph<E, V> {
    roots: Vec<(V, OpenEdge<E, V>)>,
}

// ---------------------------------------------------------------------------
// Model
// ---------------------------------------------------------------------------

/// Model of an edge source.
pub enum SourceModel<E, V> {
    Value(V),
    Tuple(Seq<EdgeModel<E, V>>),
}

/// Model of an open edge.
pub struct EdgeModel<E, V> {
    pub value: E,
    pub source: SourceModel<E, V>,
}

/// The model of an edge source.
pub closed spec fn source_model<E, V>(s: OpenEdgeSource<E, V>) -> SourceModel<E, V>
    decreases s,
{
    match s {
        OpenEdgeSource::Value(v) => SourceModel::Value(v),
        OpenEdgeSource::Tuple(es) => SourceModel::Tuple(edge_seq_model(es@)),
    }
}

/// The model of an edge sequence.
pub closed spec fn edge_seq_model<E, V>(s: Seq<OpenEdge<E, V>>) -> Seq<EdgeModel<E, V>>
    decreases s,
{
    if s.len() == 0 {
        Seq::empty()
    } else {
        edge_seq_model(s.drop_last()).push(edge_model(s.last()))
    }
}

/// The model of an open edge.
pub closed spec fn edge_model<E, V>(e: OpenEdge<E, V>) -> EdgeModel<E, V>
    decreases e,
{
    EdgeModel { value: e.value, source: source_model(e.source) }
}

/// The model of a stored pair sequence.
pub closed spec fn roots_model<E, V>(s: Seq<(V, OpenEdge<E, V>)>) -> Seq<(V, EdgeModel<E, V>)>
    decreases s,
{
    if s.len() == 0 {
        Seq::empty()
    } else {
        roots_model(s.drop_last()).push((s.last().0, edge_model(s.last().1)))
    }
}

/// The model of a graph: its `(root, edge)` pairs in insertion order.
pub closed spec fn graph_model<E, V>(g: Graph<E, V>) -> Seq<(V, EdgeModel<E, V>)> {
    roots_model(g.roots@)
}

/// `edge_seq_model` maps the sequence elementwise.
pub proof fn lemma_edge_seq_model<E, V>(s: Seq<OpenEdge<E, V>>)
    ensures
        edge_seq_model(s).len() == s.len(),
        forall|i: int| 0 <= i < s.len() ==> #[trigger] edge_seq_model(s)[i] == edge_model(s[i]),
    decreases s.len(),
{
    if s.len() > 0 {
        lemma_edge_seq_model(s.drop_last());
        assert forall|i: int| 0 <= i < s.len() implies #[trigger] edge_seq_model(s)[i]
            == edge_model(s[i]) by {
            if i < s.len() - 1 {
                assert(s.drop_last()[i] == s[i]);
            } else {
                assert(s.last() == s[i]);
            }
        }
    }
}

/// `roots_model` maps the sequence elementwise.
pub proof fn lemma_roots_model<E, V>(s: Seq<(V, OpenEdge<E, V>)>)
    ensures
        roots_model(s).len() == s.len(),
        forall|i: int|
            0 <= i < s.len() ==> #[trigger] roots_model(s)[i] == (s[i].0, edge_model(s[i].1)),
    decreases s.len(),
{
    if s.len() > 0 {
        lemma_roots_model(s.drop_last());
        assert forall|i: int| 0 <= i < s.len() implies #[trigger] roots_model(s)[i] == (
            s[i].0,
            edge_model(s[i].1),
        ) by {
            if i < s.len() - 1 {
                assert(s.drop_last()[i] == s[i]);
            } else {
                assert(s.last() == s[i]);
            }
        }
    }
}

// ---------------------------------------------------------------------------
// Equality of models, modulo the payloads' own equality
// ---------------------------------------------------------------------------

/// Equality of sources: payloads by their `eq_spec`, tuples elementwise.
pub open spec fn src_eq<E: PartialEq, V: PartialEq>(
    a: SourceModel<E, V>,
    b: SourceModel<E, V>,
) -> bool
    decreases a, 0int,
{
    match (a, b) {
        (SourceModel::Value(x), SourceModel::Value(y)) => x.eq_spec(&y),
        (SourceModel::Tuple(t1), SourceModel::Tuple(t2)) => t1.len() == t2.len() && (forall|i: int|
            0 <= i < t1.len() ==> edge_eq(#[trigger] t1[i], t2[i])),
        _ => false,
    }
}

/// Equality of edges.
pub open spec fn edge_eq<E: PartialEq, V: PartialEq>(a: EdgeModel<E, V>, b: EdgeModel<E, V>) -> bool
    decreases a, 0int,
{
    a.value.eq_spec(&b.value) && src_eq(a.source, b.source)
}

/// Equality of `(root, edge)` pairs.
pub open spec fn pair_eq<E: PartialEq, V: PartialEq>(
    a: (V, EdgeModel<E, V>),
    b: (V, EdgeModel<E, V>),
) -> bool
    decreases a, 0int,
{
    a.0.eq_spec(&b.0) && edge_eq(a.1, b.1)
}

/// Whether some member of `rs` equals `p`, with `p` on the right.
#[verifier::opaque]
pub open spec fn rs_has<E: PartialEq, V: PartialEq>(
    rs: Seq<(V, EdgeModel<E, V>)>,
    p: (V, EdgeModel<E, V>),
) -> bool
    decreases rs, 1int,
{
    exists|i: int| 0 <= i < rs.len() && pair_eq(#[trigger] rs[i], p)
}

/// Whether some member of `rs` equals `p`, with `p` on the left.
#[verifier::opaque]
pub open spec fn rs_in<E: PartialEq, V: PartialEq>(
    p: (V, EdgeModel<E, V>),
    rs: Seq<(V, EdgeModel<E, V>)>,
) -> bool
    decreases p, 1int,
{
    exists|j: int| 0 <= j < rs.len() && pair_eq(p, #[trigger] rs[j])
}

/// Set equality of pair sequences: each side's pairs are covered by the
/// other, insertion order ignored.
pub open spec fn rs_eq<E: PartialEq, V: PartialEq>(
    a: Seq<(V, EdgeModel<E, V>)>,
    b: Seq<(V, EdgeModel<E, V>)>,
) -> bool
    decreases a, 2int,
{
    (forall|i: int| 0 <= i < a.len() ==> rs_in(#[trigger] a[i], b)) && (forall|j: int|
        0 <= j < b.len() ==> rs_has(a, #[trigger] b[j]))
}

/// The result of inserting `(root, em)`: unchanged if an equal pair is
/// present, otherwise the pair is appended.
pub open spec fn rs_with<E: PartialEq, V: PartialEq>(
    rs: Seq<(V, EdgeModel<E, V>)>,
    root: V,
    em: EdgeModel<E, V>,
) -> Seq<(V, EdgeModel<E, V>)> {
    if rs_has(rs, (root, em)) {
        rs
    } else {
        rs.push((root, em))
    }
}

/// `rs_eq` holds once both inclusions are known.
pub proof fn lemma_rs_eq_intro<E: PartialEq, V: PartialEq>(
    a: Seq<(V, EdgeModel<E, V>)>,
    b: Seq<(V, EdgeModel<E, V>)>,
)
    requires
        forall|i: int| 0 <= i < a.len() ==> rs_in(#[trigger] a[i], b),
        forall|j: int| 0 <= j < b.len() ==> rs_has(a, #[trigger] b[j]),
    ensures
        rs_eq(a, b),
{
    assert(rs_eq(a, b)) by {
        reveal_with_fuel(rs_eq, 1);
        reveal_with_fuel(rs_in, 1);
        reveal_with_fuel(rs_has, 1);
    }
}

/// `rs_eq` fails once one left pair is uncovered.
pub proof fn lemma_rs_eq_refute_left<E: PartialEq, V: PartialEq>(
    a: Seq<(V, EdgeModel<E, V>)>,
    b: Seq<(V, EdgeModel<E, V>)>,
    i: int,
)
    requires
        0 <= i < a.len(),
        !rs_in(a[i], b),
    ensures
        !rs_eq(a, b),
{
    reveal_with_fuel(rs_eq, 1);
    reveal_with_fuel(rs_in, 1);
    reveal_with_fuel(rs_has, 1);
    if rs_eq(a, b) {
        assert(rs_in(a[i], b));
    }
}

/// `rs_eq` fails once one right pair is uncovered.
pub proof fn lemma_rs_eq_refute_right<E: PartialEq, V: PartialEq>(
    a: Seq<(V, EdgeModel<E, V>)>,
    b: Seq<(V, EdgeModel<E, V>)>,
    j: int,
)
    requires
        0 <= j < b.len(),
        !rs_has(a, b[j]),
    ensures
        !rs_eq(a, b),
{
    reveal_with_fuel(rs_eq, 1);
    reveal_with_fuel(rs_in, 1);
    reveal_with_fuel(rs_has, 1);
    if rs_eq(a, b) {
        assert(rs_has(a, b[j]));
    }
}

/// The payload's `eq_spec` is reflexive.
pub open spec fn eq_spec_reflexive<T: PartialEq>() -> bool {
    forall|x: T| #[trigger] x.eq_spec(&x)
}

/// `src_eq` is reflexive when the payloads' equalities are.
pub proof fn lemma_src_eq_refl<E: PartialEq, V: PartialEq>(a: SourceModel<E, V>)
    requires
        eq_spec_reflexive::<E>(),
        eq_spec_reflexive::<V>(),
    ensures
        src_eq(a, a),
    decreases a,
{
    match a {
        SourceModel::Tuple(t) => {
            assert forall|i: int| 0 <= i < t.len() implies edge_eq(#[trigger] t[i], t[i]) by {
                lemma_edge_eq_refl(t[i]);
            }
        },
        SourceModel::Value(x) => {
            assert(x.eq_spec(&x));
        },
    }
}

/// `edge_eq` is reflexive when the payloads' equalities are.
pub proof fn lemma_edge_eq_refl<E: PartialEq, V: PartialEq>(a: EdgeModel<E, V>)
    requires
        eq_spec_reflexive::<E>(),
        eq_spec_reflexive::<V>(),
    ensures
        edge_eq(a, a),
    decreases a,
{
    assert(a.value.eq_spec(&a.value));
    lemma_src_eq_refl(a.source);
}

/// `pair_eq` is reflexive when the payloads' equalities are.
pub proof fn lemma_pair_eq_refl<E: PartialEq, V: PartialEq>(a: (V, EdgeModel<E, V>))
    requires
        eq_spec_reflexive::<E>(),
        eq_spec_reflexive::<V>(),
    ensures
        pair_eq(a, a),
    decreases a,
{
    assert(a.0.eq_spec(&a.0));
    lemma_edge_eq_refl(a.1);
}

/// Inserting the same pair twice is the same as inserting it once, so
/// re-inserting a pair already present yields a graph whose model is the
/// receiver's.
pub proof fn lemma_rs_with_idempotent<E: PartialEq, V: PartialEq>(
    rs: Seq<(V, EdgeModel<E, V>)>,
    root: V,
    em: EdgeModel<E, V>,
)
    requires
        eq_spec_reflexive::<E>(),
        eq_spec_reflexive::<V>(),
    ensures
        rs_with(rs_with(rs, root, em), root, em) == rs_with(rs, root, em),
{
    reveal_with_fuel(rs_has, 1);
    let p = (root, em);
    let rs1 = rs_with(rs, root, em);
    lemma_pair_eq_refl(p);
    if !rs_has(rs, p) {
        assert(rs1[rs.len() as int] == p);
        assert(rs_has(rs1, p));
    }
}

// ---------------------------------------------------------------------------
// Reliability of the payload types
// ---------------------------------------------------------------------------

/// The type's `==` agrees with its `eq_spec`.
pub open spec fn eq_reliable<T: PartialEq>() -> bool {
    <T as PartialEqSpec>::obeys_eq_spec()
}

/// The type's `clone` returns the value cloned.
pub open spec fn clone_faithful<T: Clone>() -> bool {
    forall|a: T, b: T| #[trigger] cloned::<T>(a, b) ==> b == a
}

/// Both payload types compare and clone faithfully; every contract below
/// that mentions payload equality or copying is stated under this.
pub open spec fn payloads_reliable<E: Clone + PartialEq, V: Clone + PartialEq>() -> bool {
    eq_reliable::<E>() && eq_reliable::<V>() && clone_faithful::<E>() && clone_faithful::<V>()
}

// ---------------------------------------------------------------------------
// Executable equality
// ---------------------------------------------------------------------------

fn source_equiv<E: PartialEq, V: PartialEq>(
    a: &OpenEdgeSource<E, V>,
    b: &OpenEdgeSource<E, V>,
) -> (r: bool)
    ensures
        eq_reliable::<E>() && eq_reliable::<V>() ==> r == src_eq(
            source_model(*a),
            source_model(*b),
        ),
    decreases *a, 1int,
{
    match (a, b) {
        (OpenEdgeSource::Value(x), OpenEdgeSource::Value(y)) => x.eq(y),
        (OpenEdgeSource::Tuple(t1), OpenEdgeSource::Tuple(t2)) => edge_vecs_equiv(t1, t2),
        _ => false,
    }
}

fn edge_vecs_equiv<E: PartialEq, V: PartialEq>(
    t1: &Vec<OpenEdge<E, V>>,
    t2: &Vec<OpenEdge<E, V>>,
) -> (r: bool)
    ensures
        eq_reliable::<E>() && eq_reliable::<V>() ==> r == src_eq(
            SourceModel::Tuple(edge_seq_model(t1@)),
            SourceModel::Tuple(edge_seq_model(t2@)),
        ),
    decreases *t1, 2int,
{
    proof {
        lemma_edge_seq_model(t1@);
        lemma_edge_seq_model(t2@);
    }
    if t1.len() != t2.len() {
        return false;
    }
    let n = t1.len();
    let mut i: usize = 0;
    while i < n
        invariant
            n == t1@.len(),
            t1@.len() == t2@.len(),
            i <= n,
            edge_seq_model(t1@).len() == t1@.len(),
            edge_seq_model(t2@).len() == t2@.len(),
            forall|k: int|
                0 <= k < t1@.len() ==> #[trigger] edge_seq_model(t1@)[k] == edge_model(t1@[k]),
            forall|k: int|
                0 <= k < t2@.len() ==> #[trigger] edge_seq_model(t2@)[k] == edge_model(t2@[k]),
            eq_reliable::<E>() && eq_reliable::<V>() ==> forall|k: int|
                0 <= k < i ==> edge_eq(#[trigger] edge_seq_model(t1@)[k], edge_seq_model(t2@)[k]),
        decreases n - i,
    {
        if !edge_equiv(&t1[i], &t2[i]) {
            proof {
                if eq_reliable::<E>() && eq_reliable::<V>() {
                    assert(!edge_eq(
                        edge_seq_model(t1@)[i as int],
                        edge_seq_model(t2@)[i as int],
                    ));
                }
            }
            return false;
        }
        i += 1;
    }
    true
}

fn edge_equiv<E: PartialEq, V: PartialEq>(a: &OpenEdge<E, V>, b: &OpenEdge<E, V>) -> (r: bool)
    ensures
        eq_reliable::<E>() && eq_reliable::<V>() ==> r == edge_eq(edge_model(*a), edge_model(*b)),
    decreases *a, 0int,
{
    a.value.eq(&b.value) && source_equiv(&a.source, &b.source)
}

fn pair_equiv<E: PartialEq, V: PartialEq>(
    a: &(V, OpenEdge<E, V>),
    b: &(V, OpenEdge<E, V>),
) -> (r: bool)
    ensures
        eq_reliable::<E>() && eq_reliable::<V>() ==> r == pair_eq(
            (a.0, edge_model(a.1)),
            (b.0, edge_model(b.1)),
        ),
    decreases *a, 0int,
{
    a.0.eq(&b.0) && edge_equiv(&a.1, &b.1)
}

/// Whether some stored pair equals `p`; the stored pair stands on the left.
fn any_has_pair<E: PartialEq, V: PartialEq>(
    rs: &Vec<(V, OpenEdge<E, V>)>,
    p: &(V, OpenEdge<E, V>),
) -> (r: bool)
    ensures
        eq_reliable::<E>() && eq_reliable::<V>() ==> r == rs_has(
            roots_model(rs@),
            (p.0, edge_model(p.1)),
        ),
    decreases *rs, 1int,
{
    proof {
        lemma_roots_model(rs@);
    }
    let ghost rm = roots_model(rs@);
    let ghost pm = (p.0, edge_model(p.1));
    let n = rs.len();
    let mut i: usize = 0;
    while i < n
        invariant
            n == rs@.len(),
            rm == roots_model(rs@),
            pm == (p.0, edge_model(p.1)),
            rm.len() == rs@.len(),
            forall|k: int|
                0 <= k < rs@.len() ==> #[trigger] rm[k] == (rs@[k].0, edge_model(rs@[k].1)),
            i <= n,
            eq_reliable::<E>() && eq_reliable::<V>() ==> forall|k: int|
                0 <= k < i ==> !pair_eq(#[trigger] rm[k], pm),
        decreases n - i,
    {
        if pair_equiv(&rs[i], p) {
            proof {
                if eq_reliable::<E>() && eq_reliable::<V>() {
                    reveal_with_fuel(rs_has, 1);
                    assert(pair_eq(rm[i as int], pm));
                    assert(rs_has(rm, pm));
                }
            }
            return true;
        }
        i += 1;
    }
    proof {
        if eq_reliable::<E>() && eq_reliable::<V>() {
            reveal_with_fuel(rs_has, 1);
            assert(!rs_has(rm, pm));
        }
    }
    false
}

/// Whether `p` equals some stored pair; `p` stands on the left.
fn pair_in_any<E: PartialEq, V: PartialEq>(
    p: &(V, OpenEdge<E, V>),
    rs: &Vec<(V, OpenEdge<E, V>)>,
) -> (r: bool)
    ensures
        eq_reliable::<E>() && eq_reliable::<V>() ==> r == rs_in(
            (p.0, edge_model(p.1)),
            roots_model(rs@),
        ),
    decreases *p, 1int,
{
    proof {
        lemma_roots_model(rs@);
    }
    let ghost rm = roots_model(rs@);
    let ghost pm = (p.0, edge_model(p.1));
    let n = rs.len();
    let mut j: usize = 0;
    while j < n
        invariant
            n == rs@.len(),
            rm == roots_model(rs@),
            pm == (p.0, edge_model(p.1)),
            rm.len() == rs@.len(),
            forall|k: int|
                0 <= k < rs@.len() ==> #[trigger] rm[k] == (rs@[k].0, edge_model(rs@[k].1)),
            j <= n,
            eq_reliable::<E>() && eq_reliable::<V>() ==> forall|k: int|
                0 <= k < j ==> !pair_eq(pm, #[trigger] rm[k]),
        decreases n - j,
    {
        if pair_equiv(p, &rs[j]) {
            proof {
                if eq_reliable::<E>() && eq_reliable::<V>() {
                    reveal_with_fuel(rs_in, 1);
                    assert(pair_eq(pm, rm[j as int]));
                    assert(rs_in(pm, rm));
                }
            }
            return true;
        }
        j += 1;
    }
    proof {
        if eq_reliable::<E>() && eq_reliable::<V>() {
            reveal_with_fuel(rs_in, 1);
            assert(!rs_in(pm, rm));
        }
    }
    false
}

fn roots_equiv<E: PartialEq, V: PartialEq>(
    a: &Vec<(V, OpenEdge<E, V>)>,
    b: &Vec<(V, OpenEdge<E, V>)>,
) -> (r: bool)
    ensures
        eq_reliable::<E>() && eq_reliable::<V>() ==> r == rs_eq(roots_model(a@), roots_model(b@)),
    decreases *a, 2int,
{
    proof {
        lemma_roots_model(a@);
        lemma_roots_model(b@);
    }
    let ghost am = roots_model(a@);
    let ghost bm = roots_model(b@);
    let na = a.len();
    let mut i: usize = 0;
    while i < na
        invariant
            na == a@.len(),
            am == roots_model(a@),
            bm == roots_model(b@),
            am.len() == a@.len(),
            bm.len() == b@.len(),
            forall|k: int|
                0 <= k < a@.len() ==> #[trigger] am[k] == (a@[k].0, edge_model(a@[k].1)),
            forall|k: int|
                0 <= k < b@.len() ==> #[trigger] bm[k] == (b@[k].0, edge_model(b@[k].1)),
            i <= na,
            eq_reliable::<E>() && eq_reliable::<V>() ==> forall|k: int|
                0 <= k < i ==> rs_in(#[trigger] am[k], bm),
        decreases na - i,
    {
        if !pair_in_any(&a[i], b) {
            proof {
                if eq_reliable::<E>() && eq_reliable::<V>() {
                    lemma_rs_eq_refute_left(am, bm, i as int);
                }
            }
            return false;
        }
        i += 1;
    }
    let nb = b.len();
    let mut j: usize = 0;
    while j < nb
        invariant
            nb == b@.len(),
            am == roots_model(a@),
            bm == roots_model(b@),
            am.len() == a@.len(),
            bm.len() == b@.len(),
            forall|k: int|
                0 <= k < a@.len() ==> #[trigger] am[k] == (a@[k].0, edge_model(a@[k].1)),
            forall|k: int|
                0 <= k < b@.len() ==> #[trigger] bm[k] == (b@[k].0, edge_model(b@[k].1)),
            j <= nb,
            eq_reliable::<E>() && eq_reliable::<V>() ==> forall|k: int|
                0 <= k < am.len() ==> rs_in(#[trigger] am[k], bm),
            eq_reliable::<E>() && eq_reliable::<V>() ==> forall|k: int|
                0 <= k < j ==> rs_has(am, #[trigger] bm[k]),
        decreases nb - j,
    {
        if !any_has_pair(a, &b[j]) {
            proof {
                if eq_reliable::<E>() && eq_reliable::<V>() {
                    lemma_rs_eq_refute_right(am, bm, j as int);
                }
            }
            return false;
        }
        j += 1;
    }
    proof {
        if eq_reliable::<E>() && eq_reliable::<V>() {
            lemma_rs_eq_intro(am, bm);
        }
    }
    true
}

// ---------------------------------------------------------------------------
// Copying (the persistent `with` hands out a fresh graph)
// ---------------------------------------------------------------------------

fn copy_source<E: Clone, V: Clone>(s: &OpenEdgeSource<E, V>) -> (r: OpenEdgeSource<E, V>)
    ensures
        clone_faithful::<E>() && clone_faithful::<V>() ==> source_model(r) == source_model(*s),
    decreases *s, 1int,
{
    match s {
        OpenEdgeSource::Value(v) => {
            let v2 = v.clone();
            proof {
                if clone_faithful::<V>() {
                    assert(cloned::<V>(*v, v2));
                    assert(v2 == *v);
                }
            }
            OpenEdgeSource::Value(v2)
        },
        OpenEdgeSource::Tuple(es) => OpenEdgeSource::Tuple(copy_edge_vec(es)),
    }
}

fn copy_edge_vec<E: Clone, V: Clone>(es: &Vec<OpenEdge<E, V>>) -> (r: Vec<OpenEdge<E, V>>)
    ensures
        clone_faithful::<E>() && clone_faithful::<V>() ==> edge_seq_model(r@) == edge_seq_model(
            es@,
        ),
    decreases *es, 2int,
{
    let mut out: Vec<OpenEdge<E, V>> = Vec::new();
    let n = es.len();
    let mut i: usize = 0;
    while i < n
        invariant
            n == es@.len(),
            out@.len() == i,
            i <= n,
            clone_faithful::<E>() && clone_faithful::<V>() ==> forall|k: int|
                0 <= k < i ==> #[trigger] edge_model(out@[k]) == edge_model(es@[k]),
        decreases n - i,
    {
        out.push(copy_edge(&es[i]));
        i += 1;
    }
    proof {
        if clone_faithful::<E>() && clone_faithful::<V>() {
            lemma_edge_seq_model(out@);
            lemma_edge_seq_model(es@);
            assert forall|k: int| 0 <= k < es@.len() implies #[trigger] edge_seq_model(out@)[k]
                == edge_seq_model(es@)[k] by {
                assert(edge_model(out@[k]) == edge_model(es@[k]));
            }
            assert(edge_seq_model(out@) =~= edge_seq_model(es@));
        }
    }
    out
}

fn copy_edge<E: Clone, V: Clone>(e: &OpenEdge<E, V>) -> (r: OpenEdge<E, V>)
    ensures
        clone_faithful::<E>() && clone_faithful::<V>() ==> edge_model(r) == edge_model(*e),
    decreases *e, 0int,
{
    let v2 = e.value.clone();
    proof {
        if clone_faithful::<E>() {
            assert(cloned::<E>(e.value, v2));
            assert(v2 == e.value);
        }
    }
    OpenEdge { value: v2, source: copy_source(&e.source) }
}

fn copy_roots<E: Clone, V: Clone>(rs: &Vec<(V, OpenEdge<E, V>)>) -> (r: Vec<(V, OpenEdge<E, V>)>)
    ensures
        clone_faithful::<E>() && clone_faithful::<V>() ==> roots_model(r@) == roots_model(rs@),
    decreases *rs, 1int,
{
    let mut out: Vec<(V, OpenEdge<E, V>)> = Vec::new();
    let n = rs.len();
    let mut i: usize = 0;
    while i < n
        invariant
            n == rs@.len(),
            out@.len() == i,
            i <= n,
            clone_faithful::<E>() && clone_faithful::<V>() ==> forall|k: int|
                0 <= k < i ==> #[trigger] out@[k].0 == rs@[k].0 && edge_model(out@[k].1)
                    == edge_model(rs@[k].1),
        decreases n - i,
    {
        let pair = &rs[i];
        let root2 = pair.0.clone();
        proof {
            if clone_faithful::<V>() {
                assert(cloned::<V>(pair.0, root2));
                assert(root2 == pair.0);
            }
        }
        out.push((root2, copy_edge(&pair.1)));
        i += 1;
    }
    proof {
        if clone_faithful::<E>() && clone_faithful::<V>() {
            lemma_roots_model(out@);
            lemma_roots_model(rs@);
            assert forall|k: int| 0 <= k < rs@.len() implies #[trigger] roots_model(out@)[k]
                == roots_model(rs@)[k] by {
                assert(out@[k].0 == rs@[k].0 && edge_model(out@[k].1) == edge_model(rs@[k].1));
            }
            assert(roots_model(out@) =~= roots_model(rs@));
        }
    }
    out
}

// ---------------------------------------------------------------------------
// Construction and equality
// ---------------------------------------------------------------------------

impl<E: Clone + PartialEq, V: Clone + PartialEq> Graph<E, V> {
    /// The graph with no edges.
    pub fn new() -> (g: Graph<E, V>)
        ensures
            graph_model(g) == Seq::<(V, EdgeModel<E, V>)>::empty(),
    {
        let g = Graph { roots: Vec::new() };
        proof {
            assert(graph_model(g) =~= Seq::<(V, EdgeModel<E, V>)>::empty());
        }
        g
    }

    /// An open edge whose source is a plain value.
    pub fn from_value(edge_value: E, source_value: V) -> (r: OpenEdge<E, V>)
        ensures
            edge_model(r) == (EdgeModel {
                value: edge_value,
                source: SourceModel::Value(source_value),
            }),
    {
        OpenEdge { value: edge_value, source: OpenEdgeSource::Value(source_value) }
    }

    /// An open edge whose source is an ordered tuple of edges.
    pub fn from_tuple(edge_value: E, source_tuple: Vec<OpenEdge<E, V>>) -> (r: OpenEdge<E, V>)
        ensures
            edge_model(r) == (EdgeModel {
                value: edge_value,
                source: SourceModel::Tuple(edge_seq_model(source_tuple@)),
            }),
    {
        OpenEdge { value: edge_value, source: OpenEdgeSource::Tuple(source_tuple) }
    }

    /// The graph holding this graph's pairs and `(root_value, open_edge)`.
    /// The receiver is untouched; a pair equal to one already present is
    /// not added, so the result's model is then the receiver's.
    pub fn with(&self, root_value: V, open_edge: OpenEdge<E, V>) -> (g: Graph<E, V>)
        ensures
            payloads_reliable::<E, V>() ==> graph_model(g) == rs_with(
                graph_model(*self),
                root_value,
                edge_model(open_edge),
            ),
    {
        let pair = (root_value, open_edge);
        let ghost psnap = pair;
        let ghost pm = (psnap.0, edge_model(psnap.1));
        let present = any_has_pair(&self.roots, &pair);
        let mut roots = copy_roots(&self.roots);
        let ghost pre = roots@;
        if !present {
            roots.push(pair);
            proof {
                if payloads_reliable::<E, V>() {
                    assert(roots@.drop_last() =~= pre);
                    assert(roots@.last() == psnap);
                    assert(roots_model(roots@) == roots_model(pre).push(pm));
                }
            }
        }
        let g = Graph { roots };
        g
    }
}

impl<E: PartialEq, V: PartialEq> PartialEq for Graph<E, V> {
    /// Set equality of the pair sets, ignoring insertion order.
    fn eq(&self, other: &Graph<E, V>) -> (r: bool) {
        roots_equiv(&self.roots, &other.roots)
    }
}

impl<E: PartialEq, V: PartialEq> vstd::std_specs::cmp::PartialEqSpecImpl for Graph<E, V> {
    open spec fn obeys_eq_spec() -> bool {
        eq_reliable::<E>() && eq_reliable::<V>()
    }

    open spec fn eq_spec(&self, other: &Graph<E, V>) -> bool {
        rs_eq(graph_model(*self), graph_model(*other))
    }
}

} // verus!
