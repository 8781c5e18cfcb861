//! The recursive-descent decoder.
//!
//! The grammar is interpreted by the spec functions `sp_value`, `sp_tuple`,
//! `sp_tuple_tail`, `sp_graph` and `sp_graph_tail` over the lexer's model;
//! each takes a fuel bound, returning `None` only when the fuel runs out.
//! Every executable production promises that its outcome is the spec
//! interpreter's outcome for some fuel, which pins the decoded graph and the
//! location of every error.

use vstd::prelude::*;
use vstd::string::StrSliceExecFns;
use vstd::string::StringExecFns;

use crate::gg::lexer;
use crate::gg::lexer::{lm_measure, lm_wf, sp_next, Lexer, LexerModel, Location, Token, TokenKind, TokenModel};
use crate::gg::lexer::{lemma_sp_next_measure, lemma_stack_weight_push, lexer_init, tok_weight};
use crate::gg::{gwith, zero_tuple, zero_tuple_model, Graph, GraphModel, OpenEdge, OpenEdgeModel, ValModel, Value};
use crate::gg::{lemma_oes_model, oes_model, veq, vmodel};

verus! {

/// A decoding failure: a lexical or grammatical violation at a location.
#[derive(Debug)]
pub enum Error {
    Decoding(String, Location),
}

impl From<lexer::Error> for Error {
    /// A lexing error is a decoding error at the same location.
    fn from(e: lexer::Error) -> (r: Error) {
        match e {
            lexer::Error::Tokenizing(s, loc) => Error::Decoding(s, loc),
        }
    }
}

impl vstd::std_specs::convert::FromSpecImpl<lexer::Error> for Error {
    open spec fn obeys_from_spec() -> bool {
        true
    }

    open spec fn from_spec(e: lexer::Error) -> Error {
        match e {
            lexer::Error::Tokenizing(s, loc) => Error::Decoding(s, loc),
        }
    }
}

// ---------------------------------------------------------------------------
// Integer literals
// ---------------------------------------------------------------------------

/// An ASCII decimal digit.
pub open spec fn is_dec_digit(c: char) -> bool {
    '0' <= c && c <= '9'
}

/// The value of a digit string, most significant digit first.
pub open spec fn digits_val(s: Seq<char>) -> int
    decreases s.len(),
{
    if s.len() == 0 {
        0int
    } else {
        digits_val(s.drop_last()) * 10 + (s.last() as int - '0' as int)
    }
}

/// A non-empty, all-digit string.
pub open spec fn valid_digits(s: Seq<char>) -> bool {
    s.len() > 0 && (forall|i: int| 0 <= i < s.len() ==> is_dec_digit(#[trigger] s[i]))
}

/// What parsing a token text as a signed 64-bit integer yields: an optional
/// leading `-` followed by digits, rejecting anything else and any value out
/// of range. A `-` anywhere else in the text makes it invalid.
pub open spec fn spec_parse_i64(s: Seq<char>) -> Option<int> {
    if s.len() > 0 && s[0] == '-' {
        let d = s.skip(1);
        if valid_digits(d) && digits_val(d) <= i64::MAX as int + 1 {
            Some(-digits_val(d))
        } else {
            None
        }
    } else {
        if valid_digits(s) && digits_val(s) <= i64::MAX as int {
            Some(digits_val(s))
        } else {
            None
        }
    }
}

proof fn lemma_digits_val_bounds(s: Seq<char>)
    requires
        forall|i: int| 0 <= i < s.len() ==> is_dec_digit(#[trigger] s[i]),
    ensures
        digits_val(s) >= 0,
        s.len() > 0 ==> digits_val(s) >= digits_val(s.drop_last()),
    decreases s.len(),
{
    if s.len() > 0 {
        lemma_digits_val_bounds(s.drop_last());
    }
}

proof fn lemma_digits_val_prefix(s: Seq<char>, k: int)
    requires
        forall|i: int| 0 <= i < s.len() ==> is_dec_digit(#[trigger] s[i]),
        0 <= k <= s.len(),
    ensures
        digits_val(s) >= digits_val(s.take(k)),
    decreases s.len() - k,
{
    if k < s.len() {
        lemma_digits_val_prefix(s, k + 1);
        assert(s.take(k + 1).drop_last() =~= s.take(k));
        assert(s.take(k + 1).last() == s[k]);
        lemma_digits_val_bounds(s.take(k));
        assert(digits_val(s.take(k + 1)) == digits_val(s.take(k)) * 10 + (s[k] as int
            - '0' as int));
    } else {
        assert(s.take(k) =~= s);
    }
}

/// Parse a run of digits; `None` when the run is empty, holds a non-digit,
/// or its value exceeds `i64::MAX + 1`.
fn parse_digits(s: &str, start: usize, bound: u64) -> (r: Option<u64>)
    requires
        start as int <= s@.len() <= usize::MAX as int,
        bound as int == i64::MAX as int || bound as int == i64::MAX as int + 1,
        bound >= 10,
    ensures
        (match r {
            Some(v) => valid_digits(s@.skip(start as int)) && v as int == digits_val(
                s@.skip(start as int),
            ) && v <= bound,
            None => !(valid_digits(s@.skip(start as int)) && digits_val(
                s@.skip(start as int),
            ) <= bound as int),
        }),
{
    let ghost d = s@.skip(start as int);
    let n = s.unicode_len();
    if start >= n {
        proof {
            assert(d.len() == 0);
        }
        return None;
    }
    let mut acc: u64 = 0;
    let mut i: usize = start;
    while i < n
        invariant
            start <= i <= n,
            n == s@.len(),
            s@.len() <= usize::MAX as int,
            d == s@.skip(start as int),
            bound as int <= i64::MAX as int + 1,
            bound >= 10,
            acc as int == digits_val(d.take(i - start)),
            acc <= bound,
            forall|k: int| 0 <= k < i - start ==> is_dec_digit(#[trigger] d[k]),
        decreases n - i,
    {
        let c = s.get_char(i);
        proof {
            assert(d[i - start] == s@[i as int]);
        }
        if !('0' <= c && c <= '9') {
            proof {
                assert(!is_dec_digit(d[i - start]));
                assert(!valid_digits(d));
            }
            return None;
        }
        let dv: u64 = (c as u32 - '0' as u32) as u64;
        proof {
            assert(dv <= 9);
        }
        proof {
            assert(d.take(i - start + 1).drop_last() =~= d.take(i - start));
            assert(d.take(i - start + 1).last() == d[i - start]);
        }
        if acc > (bound - dv) / 10 {
            proof {
                let pre = i - start + 1;
                assert(digits_val(d.take(pre)) == acc * 10 + dv);
                assert(digits_val(d.take(pre)) > bound as int);
                assert forall|k: int| 0 <= k < d.len() && valid_digits(d) implies is_dec_digit(
                    #[trigger] d[k],
                ) by {}
                if valid_digits(d) {
                    lemma_digits_val_prefix(d, pre);
                    assert(digits_val(d) > bound as int);
                }
            }
            return None;
        }
        acc = acc * 10 + dv;
        i += 1;
    }
    proof {
        assert(d.take(i - start) =~= d);
        assert(d.len() > 0);
    }
    Some(acc)
}

/// Parse a token text as a signed 64-bit integer, per `spec_parse_i64`.
fn parse_i64(s: &String) -> (r: Option<i64>)
    ensures
        (match r {
            Some(v) => spec_parse_i64(s@) == Some(v as int),
            None => spec_parse_i64(s@) is None,
        }),
{
    let st = s.as_str();
    let n = st.unicode_len();
    if n > 0 && st.get_char(0) == '-' {
        let bound: u64 = 0x8000_0000_0000_0000u64;
        proof {
            assert(bound as int == i64::MAX as int + 1);
        }
        match parse_digits(st, 1, bound) {
            Some(v) => {
                if v == bound {
                    proof {
                        assert(-(v as int) == i64::MIN as int);
                    }
                    Some(i64::MIN)
                } else {
                    Some(-(v as i64))
                }
            },
            None => None,
        }
    } else {
        let bound2: u64 = 0x7fff_ffff_ffff_ffffu64;
        proof {
            assert(bound2 as int == i64::MAX as int);
        }
        match parse_digits(st, 0, bound2) {
            Some(v) => {
                proof {
                    assert(s@.skip(0) =~= s@);
                }
                Some(v as i64)
            },
            None => None,
        }
    }
}

// ---------------------------------------------------------------------------
// The spec interpreter
// ---------------------------------------------------------------------------

/// A parse outcome: a result and the state after it, or a failure location.
pub enum PRes<T> {
    Done(T, LexerModel),
    Fail(int, int),
}

/// The `End` token, which terminates the outermost graph.
pub open spec fn end_token() -> TokenModel {
    TokenModel { kind: TokenKind::End, text: Seq::empty() }
}

/// The `}` token, which terminates a nested graph.
pub open spec fn close_brace_token() -> TokenModel {
    TokenModel { kind: TokenKind::Punctuation, text: seq!['}'] }
}

/// Pushing one token back onto the lexer's stack.
pub open spec fn lm_push(m: LexerModel, t: TokenModel, r: int, c: int) -> LexerModel {
    LexerModel { stack: m.stack.push((t, (r, c))), ..m }
}

/// Requiring a specific punctuation token.
pub open spec fn sp_exp_punct(m: LexerModel, c: char) -> PRes<()> {
    let (r, m1) = sp_next(m);
    match r {
        Err((ch, rr, cc)) => PRes::Fail(rr, cc),
        Ok((t, rr, cc)) => if t.kind == TokenKind::Punctuation && t.text == seq![c] {
            PRes::Done((), m1)
        } else {
            PRes::Fail(rr, cc)
        },
    }
}

/// One value: a name, a number, a parenthesized tuple, or a braced graph.
pub open spec fn sp_value(m: LexerModel, fuel: nat) -> Option<PRes<ValModel>>
    decreases fuel,
{
    if fuel == 0 {
        None
    } else {
        let (r, m1) = sp_next(m);
        match r {
            Err((ch, rr, cc)) => Some(PRes::Fail(rr, cc)),
            Ok((t, rr, cc)) => {
                if t.kind == TokenKind::Name {
                    Some(PRes::Done(ValModel::Name(t.text), m1))
                } else if t.kind == TokenKind::Number {
                    match spec_parse_i64(t.text) {
                        Some(n) => Some(PRes::Done(ValModel::Number(n), m1)),
                        None => Some(PRes::Fail(rr, cc)),
                    }
                } else if t.kind == TokenKind::Punctuation && t.text == seq!['('] {
                    match sp_tuple(m1, Seq::empty(), (fuel - 1) as nat) {
                        None => None,
                        Some(PRes::Done(es, m2)) => Some(PRes::Done(ValModel::Tuple(es), m2)),
                        Some(PRes::Fail(r2, c2)) => Some(PRes::Fail(r2, c2)),
                    }
                } else if t.kind == TokenKind::Punctuation && t.text == seq!['{'] {
                    match sp_graph(m1, close_brace_token(), Seq::empty(), (fuel - 1) as nat) {
                        None => None,
                        Some(PRes::Done(g, m2)) => Some(PRes::Done(ValModel::Graph(g), m2)),
                        Some(PRes::Fail(r2, c2)) => Some(PRes::Fail(r2, c2)),
                    }
                } else {
                    Some(PRes::Fail(rr, cc))
                }
            },
        }
    }
}

/// The elements of a parenthesized tuple, ending at `)`.
pub open spec fn sp_tuple(m: LexerModel, acc: Seq<OpenEdgeModel>, fuel: nat) -> Option<
    PRes<Seq<OpenEdgeModel>>,
>
    decreases fuel,
{
    if fuel == 0 {
        None
    } else {
        let (r, m1) = sp_next(m);
        match r {
            Err((ch, rr, cc)) => Some(PRes::Fail(rr, cc)),
            Ok((t, rr, cc)) => {
                if t.kind == TokenKind::Punctuation && t.text == seq![')'] {
                    Some(PRes::Done(acc, m1))
                } else {
                    match sp_tuple_tail(lm_push(m1, t, rr, cc), zero_tuple_model(), (fuel - 1) as nat) {
                        None => None,
                        Some(PRes::Fail(r2, c2)) => Some(PRes::Fail(r2, c2)),
                        Some(PRes::Done(oe, m2)) => sp_tuple(m2, acc.push(oe), (fuel - 1) as nat),
                    }
                }
            },
        }
    }
}

/// A chain element inside a tuple; the bare-element terminator is `,`.
pub open spec fn sp_tuple_tail(m: LexerModel, label: ValModel, fuel: nat) -> Option<
    PRes<OpenEdgeModel>,
>
    decreases fuel,
{
    if fuel == 0 {
        None
    } else {
        match sp_value(m, (fuel - 1) as nat) {
            None => None,
            Some(PRes::Fail(r1, c1)) => Some(PRes::Fail(r1, c1)),
            Some(PRes::Done(v, m1)) => {
                let (r, m2) = sp_next(m1);
                match r {
                    Err((ch, rr, cc)) => Some(PRes::Fail(rr, cc)),
                    Ok((t, rr, cc)) => {
                        if t.kind == TokenKind::Punctuation && t.text == seq![','] {
                            Some(PRes::Done(OpenEdgeModel { label: label, src: v }, m2))
                        } else if t.kind == TokenKind::Punctuation && t.text == seq!['<'] {
                            if veq(label, zero_tuple_model()) {
                                sp_tuple_tail(m2, v, (fuel - 1) as nat)
                            } else {
                                match sp_tuple_tail(m2, v, (fuel - 1) as nat) {
                                    None => None,
                                    Some(PRes::Fail(r2, c2)) => Some(PRes::Fail(r2, c2)),
                                    Some(PRes::Done(oe2, m3)) => Some(
                                        PRes::Done(
                                            OpenEdgeModel {
                                                label: label,
                                                src: ValModel::Tuple(seq![oe2]),
                                            },
                                            m3,
                                        ),
                                    ),
                                }
                            }
                        } else {
                            Some(PRes::Done(OpenEdgeModel { label: label, src: v }, lm_push(m2, t, rr, cc)))
                        }
                    },
                }
            },
        }
    }
}

/// A run of bindings ending at `term`: `Name '=' chain ';'?` each, folded
/// into the graph by `gwith`.
pub open spec fn sp_graph(m: LexerModel, term: TokenModel, g: GraphModel, fuel: nat) -> Option<
    PRes<GraphModel>,
>
    decreases fuel,
{
    if fuel == 0 {
        None
    } else {
        let (r, m1) = sp_next(m);
        match r {
            Err((ch, rr, cc)) => Some(PRes::Fail(rr, cc)),
            Ok((t, rr, cc)) => {
                if t == term {
                    Some(PRes::Done(g, m1))
                } else if t.kind == TokenKind::Name {
                    match sp_exp_punct(m1, '=') {
                        PRes::Fail(r2, c2) => Some(PRes::Fail(r2, c2)),
                        PRes::Done(u, m2) => match sp_graph_tail(m2, zero_tuple_model(), (fuel - 1) as nat) {
                            None => None,
                            Some(PRes::Fail(r3, c3)) => Some(PRes::Fail(r3, c3)),
                            Some(PRes::Done(oe, m3)) => sp_graph(
                                m3,
                                term,
                                gwith(g, ValModel::Name(t.text), oe.label, oe.src),
                                (fuel - 1) as nat,
                            ),
                        },
                    }
                } else {
                    Some(PRes::Fail(rr, cc))
                }
            },
        }
    }
}

/// A chain element inside a binding; the bare-element terminator is `;`.
pub open spec fn sp_graph_tail(m: LexerModel, label: ValModel, fuel: nat) -> Option<
    PRes<OpenEdgeModel>,
>
    decreases fuel,
{
    if fuel == 0 {
        None
    } else {
        match sp_value(m, (fuel - 1) as nat) {
            None => None,
            Some(PRes::Fail(r1, c1)) => Some(PRes::Fail(r1, c1)),
            Some(PRes::Done(v, m1)) => {
                let (r, m2) = sp_next(m1);
                match r {
                    Err((ch, rr, cc)) => Some(PRes::Fail(rr, cc)),
                    Ok((t, rr, cc)) => {
                        if t.kind == TokenKind::Punctuation && t.text == seq![';'] {
                            Some(PRes::Done(OpenEdgeModel { label: label, src: v }, m2))
                        } else if t.kind == TokenKind::Punctuation && t.text == seq!['<'] {
                            if veq(label, zero_tuple_model()) {
                                sp_graph_tail(m2, v, (fuel - 1) as nat)
                            } else {
                                match sp_graph_tail(m2, v, (fuel - 1) as nat) {
                                    None => None,
                                    Some(PRes::Fail(r2, c2)) => Some(PRes::Fail(r2, c2)),
                                    Some(PRes::Done(oe2, m3)) => Some(
                                        PRes::Done(
                                            OpenEdgeModel {
                                                label: label,
                                                src: ValModel::Tuple(seq![oe2]),
                                            },
                                            m3,
                                        ),
                                    ),
                                }
                            }
                        } else {
                            Some(PRes::Done(OpenEdgeModel { label: label, src: v }, lm_push(m2, t, rr, cc)))
                        }
                    },
                }
            },
        }
    }
}

/// A whole document: bindings up to the end of input.
pub open spec fn sp_document(m: LexerModel, fuel: nat) -> Option<PRes<GraphModel>> {
    sp_graph(m, end_token(), Seq::empty(), fuel)
}

// ---------------------------------------------------------------------------
// Fuel monotonicity
// ---------------------------------------------------------------------------

/// More fuel never changes a settled outcome.
pub proof fn lemma_value_mono(m: LexerModel, f1: nat, f2: nat)
    requires
        f1 <= f2,
        sp_value(m, f1) is Some,
    ensures
        sp_value(m, f2) == sp_value(m, f1),
    decreases f1,
{
    let (r, m1) = sp_next(m);
    if f1 > 0 {
        match r {
            Err(_) => {},
            Ok((t, rr, cc)) => {
                if t.kind == TokenKind::Name {
                } else if t.kind == TokenKind::Number {
                } else if t.kind == TokenKind::Punctuation && t.text == seq!['('] {
                    lemma_tuple_mono(m1, Seq::empty(), (f1 - 1) as nat, (f2 - 1) as nat);
                } else if t.kind == TokenKind::Punctuation && t.text == seq!['{'] {
                    lemma_graph_mono(m1, close_brace_token(), Seq::empty(), (f1 - 1) as nat, (f2 - 1) as nat);
                }
            },
        }
    }
}

/// More fuel never changes a settled outcome.
pub proof fn lemma_tuple_mono(m: LexerModel, acc: Seq<OpenEdgeModel>, f1: nat, f2: nat)
    requires
        f1 <= f2,
        sp_tuple(m, acc, f1) is Some,
    ensures
        sp_tuple(m, acc, f2) == sp_tuple(m, acc, f1),
    decreases f1,
{
    let (r, m1) = sp_next(m);
    if f1 > 0 {
        match r {
            Err(_) => {},
            Ok((t, rr, cc)) => {
                if !(t.kind == TokenKind::Punctuation && t.text == seq![')']) {
                    let mp = lm_push(m1, t, rr, cc);
                    lemma_tuple_tail_mono(mp, zero_tuple_model(), (f1 - 1) as nat, (f2 - 1) as nat);
                    match sp_tuple_tail(mp, zero_tuple_model(), (f1 - 1) as nat) {
                        Some(PRes::Done(oe, m2)) => {
                            lemma_tuple_mono(m2, acc.push(oe), (f1 - 1) as nat, (f2 - 1) as nat);
                        },
                        _ => {},
                    }
                }
            },
        }
    }
}

/// More fuel never changes a settled outcome.
pub proof fn lemma_tuple_tail_mono(m: LexerModel, label: ValModel, f1: nat, f2: nat)
    requires
        f1 <= f2,
        sp_tuple_tail(m, label, f1) is Some,
    ensures
        sp_tuple_tail(m, label, f2) == sp_tuple_tail(m, label, f1),
    decreases f1,
{
    if f1 > 0 {
        lemma_value_mono(m, (f1 - 1) as nat, (f2 - 1) as nat);
        match sp_value(m, (f1 - 1) as nat) {
            Some(PRes::Done(v, m1)) => {
                let (r, m2) = sp_next(m1);
                match r {
                    Err(_) => {},
                    Ok((t, rr, cc)) => {
                        if t.kind == TokenKind::Punctuation && t.text == seq!['<'] {
                            if sp_tuple_tail(m2, v, (f1 - 1) as nat) is Some {
                                lemma_tuple_tail_mono(m2, v, (f1 - 1) as nat, (f2 - 1) as nat);
                            }
                        }
                    },
                }
            },
            _ => {},
        }
    }
}

/// More fuel never changes a settled outcome.
pub proof fn lemma_graph_mono(m: LexerModel, term: TokenModel, g: GraphModel, f1: nat, f2: nat)
    requires
        f1 <= f2,
        sp_graph(m, term, g, f1) is Some,
    ensures
        sp_graph(m, term, g, f2) == sp_graph(m, term, g, f1),
    decreases f1,
{
    let (r, m1) = sp_next(m);
    if f1 > 0 {
        match r {
            Err(_) => {},
            Ok((t, rr, cc)) => {
                if t == term {
                } else if t.kind == TokenKind::Name {
                    match sp_exp_punct(m1, '=') {
                        PRes::Fail(_, _) => {},
                        PRes::Done(u, m2) => {
                            lemma_graph_tail_mono(m2, zero_tuple_model(), (f1 - 1) as nat, (f2 - 1) as nat);
                            match sp_graph_tail(m2, zero_tuple_model(), (f1 - 1) as nat) {
                                Some(PRes::Done(oe, m3)) => {
                                    lemma_graph_mono(
                                        m3,
                                        term,
                                        gwith(g, ValModel::Name(t.text), oe.label, oe.src),
                                        (f1 - 1) as nat,
                                        (f2 - 1) as nat,
                                    );
                                },
                                _ => {},
                            }
                        },
                    }
                }
            },
        }
    }
}

/// More fuel never changes a settled outcome.
pub proof fn lemma_graph_tail_mono(m: LexerModel, label: ValModel, f1: nat, f2: nat)
    requires
        f1 <= f2,
        sp_graph_tail(m, label, f1) is Some,
    ensures
        sp_graph_tail(m, label, f2) == sp_graph_tail(m, label, f1),
    decreases f1,
{
    if f1 > 0 {
        lemma_value_mono(m, (f1 - 1) as nat, (f2 - 1) as nat);
        match sp_value(m, (f1 - 1) as nat) {
            Some(PRes::Done(v, m1)) => {
                let (r, m2) = sp_next(m1);
                match r {
                    Err(_) => {},
                    Ok((t, rr, cc)) => {
                        if t.kind == TokenKind::Punctuation && t.text == seq!['<'] {
                            if sp_graph_tail(m2, v, (f1 - 1) as nat) is Some {
                                lemma_graph_tail_mono(m2, v, (f1 - 1) as nat, (f2 - 1) as nat);
                            }
                        }
                    },
                }
            },
            _ => {},
        }
    }
}

// ---------------------------------------------------------------------------
// Outcome mappings
// ---------------------------------------------------------------------------

/// The location carried by a decoding error.
pub open spec fn err_loc(e: Error) -> (int, int) {
    match e {
        Error::Decoding(s, loc) => (loc.row as int, loc.col as int),
    }
}

/// The spec outcome an executable value result stands for.
pub open spec fn out_value(res: Result<Value, Error>, m: LexerModel) -> PRes<ValModel> {
    match res {
        Ok(v) => PRes::Done(vmodel(v), m),
        Err(e) => PRes::Fail(err_loc(e).0, err_loc(e).1),
    }
}

/// The spec outcome an executable unit result stands for.
pub open spec fn out_unit(res: Result<(), Error>, m: LexerModel) -> PRes<()> {
    match res {
        Ok(u) => PRes::Done((), m),
        Err(e) => PRes::Fail(err_loc(e).0, err_loc(e).1),
    }
}

/// The spec outcome an executable open-edge result stands for.
pub open spec fn out_edge(res: Result<OpenEdge, Error>, m: LexerModel) -> PRes<OpenEdgeModel> {
    match res {
        Ok(oe) => PRes::Done(oe@, m),
        Err(e) => PRes::Fail(err_loc(e).0, err_loc(e).1),
    }
}

/// The spec outcome an executable graph result stands for.
pub open spec fn out_graph(res: Result<Graph, Error>, m: LexerModel) -> PRes<GraphModel> {
    match res {
        Ok(g) => PRes::Done(g@, m),
        Err(e) => PRes::Fail(err_loc(e).0, err_loc(e).1),
    }
}

/// The spec outcome an executable tuple-filling result stands for.
pub open spec fn out_tuple(res: Result<(), Error>, es: Seq<OpenEdge>, m: LexerModel) -> PRes<
    Seq<OpenEdgeModel>,
> {
    match res {
        Ok(u) => PRes::Done(oes_model(es), m),
        Err(e) => PRes::Fail(err_loc(e).0, err_loc(e).1),
    }
}

// ---------------------------------------------------------------------------
// The executable decoder
// ---------------------------------------------------------------------------

/// The decoder: owns its lexer.
pub struct Decoder {
    lexer: Lexer,
}

impl View for Decoder {
    type V = LexerModel;

    closed spec fn view(&self) -> LexerModel {
        self.lexer@
    }
}

/// Whether a token is the given single punctuation character.
fn tok_is_punct_char(t: &Token, c: char) -> (r: bool)
    ensures
        r == (t@.kind == TokenKind::Punctuation && t@.text == seq![c]),
{
    if !(matches!(t.kind, TokenKind::Punctuation)) {
        proof {
            assert(t@.kind != TokenKind::Punctuation);
        }
        return false;
    }
    let st = t.value.as_str();
    if st.unicode_len() != 1 {
        proof {
            assert(t@.text.len() != 1);
            assert(t@.text != seq![c]);
        }
        return false;
    }
    let r = st.get_char(0) == c;
    proof {
        if r {
            assert(t@.text =~= seq![c]);
        } else {
            assert(t@.text != seq![c]);
        }
    }
    r
}

/// Whether two tokens have the same kind and text.
fn token_eq(a: &Token, b: &Token) -> (r: bool)
    ensures
        r == (a@ == b@),
{
    let kind_eq = match (&a.kind, &b.kind) {
        (TokenKind::Name, TokenKind::Name) => true,
        (TokenKind::Number, TokenKind::Number) => true,
        (TokenKind::Punctuation, TokenKind::Punctuation) => true,
        (TokenKind::End, TokenKind::End) => true,
        _ => false,
    };
    if !kind_eq {
        proof {
            assert(a@.kind != b@.kind);
        }
        return false;
    }
    let r = a.value.eq(&b.value);
    proof {
        if r {
            assert(a@ =~= b@);
        }
    }
    r
}

impl Decoder {
    /// A decoder over the given characters.
    pub fn new(chars: Vec<char>) -> (d: Decoder)
        requires
            chars@.len() <= i64::MAX as int,
        ensures
            d@ == lexer_init(chars@),
            lm_wf(d@),
    {
        Decoder { lexer: Lexer::new(chars) }
    }

    /// Decode a document: bindings up to the end of input. The result is
    /// the spec interpreter's outcome on the decoder's state.
    pub fn decode_undelimited(&mut self) -> (res: Result<Graph, Error>)
        requires
            lm_wf(old(self)@),
        ensures
            exists|f: nat|
                #[trigger] sp_document(old(self)@, f) == Some(out_graph(res, final(self)@)),
    {
        let term = Token { kind: TokenKind::End, value: String::new() };
        proof {
            assert(term@ =~= end_token());
        }
        let g = Graph::new();
        let ghost g0 = g@;
        let res = self.generic_graph(&term, g);
        proof {
            let f = choose|f: nat|
                #[trigger] sp_graph(old(self)@, term@, g0, f) == Some(out_graph(res, self@));
            assert(g0 =~= Seq::<(ValModel, OpenEdgeModel)>::empty());
            assert(sp_document(old(self)@, f) == Some(out_graph(res, self@)));
        }
        res
    }

    /// Require the single punctuation character `c`, failing with a located
    /// error otherwise.
    fn exp_punct(&mut self, c: char) -> (res: Result<(), Error>)
        requires
            lm_wf(old(self)@),
        ensures
            sp_exp_punct(old(self)@, c) == out_unit(res, final(self)@),
            res is Ok ==> lm_wf(final(self)@) && lm_measure(final(self)@) < lm_measure(
                old(self)@,
            ) && final(self)@.input == old(self)@.input,
    {
        proof {
            lemma_sp_next_measure(old(self)@);
        }
        match self.lexer.next() {
            Err(e) => {
                let e2 = Error::from(e);
                Err(e2)
            },
            Ok((tok, loc)) => {
                if tok_is_punct_char(&tok, c) {
                    Ok(())
                } else {
                    let mut msg = String::from_str("expected '");
                    let mut cs: Vec<char> = Vec::new();
                    cs.push(c);
                    let msg = msg.concat(lexer::chars_to_string(&cs).as_str());
                    let msg = msg.concat("', found: ");
                    let r = tok.render();
                    let msg = msg.concat(r.as_str());
                    Err(Error::Decoding(msg, loc))
                }
            },
        }
    }

    /// One value: a name, a number, a parenthesized tuple, or a braced
    /// graph; anything else is a located error.
    fn value(&mut self) -> (res: Result<Value, Error>)
        requires
            lm_wf(old(self)@),
        ensures
            exists|f: nat|
                #[trigger] sp_value(old(self)@, f) == Some(out_value(res, final(self)@)),
            res is Ok ==> lm_wf(final(self)@) && lm_measure(final(self)@) < lm_measure(
                old(self)@,
            ) && final(self)@.input == old(self)@.input,
        decreases lm_measure(old(self)@), 0int,
    {
        proof {
            lemma_sp_next_measure(old(self)@);
        }
        let ghost m0 = self@;
        match self.lexer.next() {
            Err(e) => {
                let e2 = Error::from(e);
                let res = Err(e2);
                proof {
                    assert(sp_value(m0, 1nat) == Some(out_value(res, self@)));
                }
                res
            },
            Ok((tok, loc)) => {
                let ghost tokm = tok@;
                let ghost m1 = self@;
                if matches!(tok.kind, TokenKind::Name) {
                    let res = Ok(Value::Name(tok.value));
                    proof {
                        assert(sp_value(m0, 1nat) == Some(out_value(res, self@)));
                    }
                    res
                } else if matches!(tok.kind, TokenKind::Number) {
                    match parse_i64(&tok.value) {
                        Some(n) => {
                            let res = Ok(Value::Number(n));
                            proof {
                                assert(sp_value(m0, 1nat) == Some(out_value(res, self@)));
                            }
                            res
                        },
                        None => {
                            let mut msg = String::from_str("parsing ");
                            let r = tok.render();
                            let msg = msg.concat(r.as_str());
                            let msg = msg.concat(" as integer failed");
                            let res = Err(Error::Decoding(msg, loc));
                            proof {
                                assert(sp_value(m0, 1nat) == Some(out_value(res, self@)));
                            }
                            res
                        },
                    }
                } else if tok_is_punct_char(&tok, '(') {
                    let mut vecv: Vec<OpenEdge> = Vec::new();
                    let ghost acc0 = oes_model(vecv@);
                    proof {
                        assert(acc0 =~= Seq::<OpenEdgeModel>::empty());
                    }
                    let r2 = self.tuple(&mut vecv);
                    match r2 {
                        Ok(u) => {
                            let ghost m2 = self@;
                            let ghost ft = choose|f: nat|
                                #[trigger] sp_tuple(m1, acc0, f) == Some(
                                    PRes::Done(oes_model(vecv@), m2),
                                );
                            let res = Ok(Value::Tuple(vecv));
                            proof {
                                assert(sp_tuple(m1, Seq::empty(), ft) == Some(
                                    PRes::Done(oes_model(vecv@), m2),
                                ));
                                assert(sp_value(m0, (ft + 1) as nat) == Some(
                                    out_value(res, self@),
                                ));
                            }
                            res
                        },
                        Err(e) => {
                            let ghost ft = choose|f: nat|
                                #[trigger] sp_tuple(m1, acc0, f) == Some(
                                    PRes::<Seq<OpenEdgeModel>>::Fail(err_loc(e).0, err_loc(e).1),
                                );
                            let res = Err(e);
                            proof {
                                assert(sp_value(m0, (ft + 1) as nat) == Some(
                                    out_value(res, self@),
                                ));
                            }
                            res
                        },
                    }
                } else if tok_is_punct_char(&tok, '{') {
                    let g0 = Graph::new();
                    let ghost gm0 = g0@;
                    let r2 = self.graph(g0);
                    match r2 {
                        Ok(g) => {
                            let ghost m2 = self@;
                            let ghost fg = choose|f: nat|
                                #[trigger] sp_graph(m1, close_brace_token(), gm0, f) == Some(
                                    PRes::Done(g@, m2),
                                );
                            let res = Ok(Value::Graph(g));
                            proof {
                                assert(gm0 =~= Seq::<(ValModel, OpenEdgeModel)>::empty());
                                assert(sp_value(m0, (fg + 1) as nat) == Some(
                                    out_value(res, self@),
                                ));
                            }
                            res
                        },
                        Err(e) => {
                            let ghost fg = choose|f: nat|
                                #[trigger] sp_graph(m1, close_brace_token(), gm0, f) == Some(
                                    PRes::<GraphModel>::Fail(err_loc(e).0, err_loc(e).1),
                                );
                            let res = Err(e);
                            proof {
                                assert(gm0 =~= Seq::<(ValModel, OpenEdgeModel)>::empty());
                                assert(sp_value(m0, (fg + 1) as nat) == Some(
                                    out_value(res, self@),
                                ));
                            }
                            res
                        },
                    }
                } else {
                    let mut msg = String::from_str("expected name, number, '(', or '{', found: ");
                    let r = tok.render();
                    let msg = msg.concat(r.as_str());
                    let res = Err(Error::Decoding(msg, loc));
                    proof {
                        assert(sp_value(m0, 1nat) == Some(out_value(res, self@)));
                    }
                    res
                }
            },
        }
    }

    /// Fill a parenthesized tuple: chain elements up to `)`.
    fn tuple(&mut self, tuple_vec: &mut Vec<OpenEdge>) -> (res: Result<(), Error>)
        requires
            lm_wf(old(self)@),
        ensures
            exists|f: nat|
                #[trigger] sp_tuple(old(self)@, oes_model(old(tuple_vec)@), f) == Some(
                    out_tuple(res, final(tuple_vec)@, final(self)@),
                ),
            res is Ok ==> lm_wf(final(self)@) && lm_measure(final(self)@) < lm_measure(
                old(self)@,
            ) && final(self)@.input == old(self)@.input,
        decreases lm_measure(old(self)@), 3int,
    {
        loop
            invariant
                lm_wf(self@),
                self@.input == old(self)@.input,
                lm_measure(self@) <= lm_measure(old(self)@),
                forall|f: nat|
                    #[trigger] sp_tuple(self@, oes_model(tuple_vec@), f) is Some
                        ==> exists|f2: nat|
                        #[trigger] sp_tuple(old(self)@, oes_model(old(tuple_vec)@), f2)
                            == sp_tuple(self@, oes_model(tuple_vec@), f),
            decreases lm_measure(self@),
        {
            let ghost m_it = self@;
            let ghost acc_it = oes_model(tuple_vec@);
            proof {
                lemma_sp_next_measure(m_it);
            }
            match self.lexer.next() {
                Err(e) => {
                    let e2 = Error::from(e);
                    let res = Err(e2);
                    proof {
                        assert(sp_tuple(m_it, acc_it, 1nat) == Some(
                            out_tuple(res, tuple_vec@, self@),
                        ));
                    }
                    return res;
                },
                Ok((tok, loc)) => {
                    if tok_is_punct_char(&tok, ')') {
                        let res = Ok(());
                        proof {
                            assert(sp_tuple(m_it, acc_it, 1nat) == Some(
                                out_tuple(res, tuple_vec@, self@),
                            ));
                        }
                        return res;
                    }
                    let ghost tokm = tok@;
                    let ghost rr = loc.row as int;
                    let ghost cc = loc.col as int;
                    let ghost m2 = self@;
                    self.lexer.push_next(tok, loc);
                    let ghost m_pb = self@;
                    proof {
                        assert(m_pb =~= lm_push(m2, tokm, rr, cc));
                        lemma_stack_weight_push(m2.stack, (tokm, (rr, cc)));
                    }
                    let r2 = self.generic_tail(zero_tuple(), true);
                    match r2 {
                        Err(e) => {
                            let ghost ftt = choose|f: nat|
                                #[trigger] sp_tuple_tail(m_pb, zero_tuple_model(), f) == Some(
                                    PRes::<OpenEdgeModel>::Fail(err_loc(e).0, err_loc(e).1),
                                );
                            let res = Err(e);
                            proof {
                                assert(sp_tuple(m_it, acc_it, (ftt + 1) as nat) == Some(
                                    out_tuple(res, tuple_vec@, self@),
                                ));
                            }
                            return res;
                        },
                        Ok(oe) => {
                            let ghost oem = oe@;
                            let ghost oesnap = oe;
                            let ghost m3 = self@;
                            let ghost ftt = choose|f: nat|
                                #[trigger] sp_tuple_tail(m_pb, zero_tuple_model(), f) == Some(
                                    PRes::Done(oem, m3),
                                );
                            let ghost vec_pre = tuple_vec@;
                            tuple_vec.push(oe);
                            proof {
                                assert(tuple_vec@.drop_last() =~= vec_pre);
                                assert(tuple_vec@.last() == oesnap);
                                assert(oes_model(tuple_vec@) == acc_it.push(oem));
                                assert(lm_measure(m_pb) == lm_measure(m2) + tok_weight(tokm));
                                assert(lm_measure(m_pb) <= lm_measure(m_it));
                                assert(lm_measure(self@) < lm_measure(m_it));
                                assert forall|f: nat|
                                    #[trigger] sp_tuple(self@, oes_model(tuple_vec@), f)
                                        is Some implies exists|f2: nat|
                                    #[trigger] sp_tuple(
                                        old(self)@,
                                        oes_model(old(tuple_vec)@),
                                        f2,
                                    ) == sp_tuple(self@, oes_model(tuple_vec@), f) by {
                                    let fm = if ftt > f {
                                        ftt
                                    } else {
                                        f
                                    };
                                    lemma_tuple_tail_mono(m_pb, zero_tuple_model(), ftt, fm);
                                    lemma_tuple_mono(self@, acc_it.push(oem), f, fm);
                                    assert(sp_tuple(m_it, acc_it, (fm + 1) as nat) == sp_tuple(
                                        self@,
                                        oes_model(tuple_vec@),
                                        f,
                                    ));
                                    assert(sp_tuple(m_it, acc_it, (fm + 1) as nat) is Some);
                                }
                            }
                        },
                    }
                },
            }
        }
    }

    /// A chain element: a value, then `,`/`;`, `<`, or a pushed-back token.
    /// `in_tuple` picks the bare-element terminator: `,` inside a tuple,
    /// `;` inside a binding.
    #[verifier::rlimit(100)]
    fn generic_tail(&mut self, edge_val: Value, in_tuple: bool) -> (res: Result<OpenEdge, Error>)
        requires
            lm_wf(old(self)@),
        ensures
            (if in_tuple {
                exists|f: nat|
                    #[trigger] sp_tuple_tail(old(self)@, vmodel(edge_val), f) == Some(
                        out_edge(res, final(self)@),
                    )
            } else {
                exists|f: nat|
                    #[trigger] sp_graph_tail(old(self)@, vmodel(edge_val), f) == Some(
                        out_edge(res, final(self)@),
                    )
            }),
            res is Ok ==> lm_wf(final(self)@) && lm_measure(final(self)@) < lm_measure(
                old(self)@,
            ) && final(self)@.input == old(self)@.input,
        decreases lm_measure(old(self)@), 1int,
    {
        let ghost m0 = self@;
        let ghost ev = vmodel(edge_val);
        let rv = self.value();
        match rv {
            Err(e) => {
                let ghost fv = choose|f: nat|
                    #[trigger] sp_value(m0, f) == Some(
                        PRes::<ValModel>::Fail(err_loc(e).0, err_loc(e).1),
                    );
                let res = Err(e);
                proof {
                    if in_tuple {
                        assert(sp_tuple_tail(m0, ev, (fv + 1) as nat) == Some(
                            out_edge(res, self@),
                        ));
                    } else {
                        assert(sp_graph_tail(m0, ev, (fv + 1) as nat) == Some(
                            out_edge(res, self@),
                        ));
                    }
                }
                res
            },
            Ok(v) => {
                let ghost vm = vmodel(v);
                let ghost m1 = self@;
                let ghost fv = choose|f: nat|
                    #[trigger] sp_value(m0, f) == Some(PRes::Done(vm, m1));
                proof {
                    lemma_sp_next_measure(m1);
                }
                match self.lexer.next() {
                    Err(e) => {
                        let e2 = Error::from(e);
                        let res = Err(e2);
                        proof {
                            if in_tuple {
                                assert(sp_tuple_tail(m0, ev, (fv + 1) as nat) == Some(
                                    out_edge(res, self@),
                                ));
                            } else {
                                assert(sp_graph_tail(m0, ev, (fv + 1) as nat) == Some(
                                    out_edge(res, self@),
                                ));
                            }
                        }
                        res
                    },
                    Ok((tok, loc)) => {
                        let bare_term = if in_tuple {
                            tok_is_punct_char(&tok, ',')
                        } else {
                            tok_is_punct_char(&tok, ';')
                        };
                        if bare_term {
                            let res = Ok(OpenEdge(edge_val, v));
                            proof {
                                if in_tuple {
                                    assert(sp_tuple_tail(m0, ev, (fv + 1) as nat) == Some(
                                        out_edge(res, self@),
                                    ));
                                } else {
                                    assert(sp_graph_tail(m0, ev, (fv + 1) as nat) == Some(
                                        out_edge(res, self@),
                                    ));
                                }
                            }
                            res
                        } else if tok_is_punct_char(&tok, '<') {
                            let ghost m2 = self@;
                            let zt = zero_tuple();
                            if edge_val.eq(&zt) {
                                let r2 = self.generic_tail(v, in_tuple);
                                proof {
                                    if in_tuple {
                                        let f2 = choose|f: nat|
                                            #[trigger] sp_tuple_tail(m2, vm, f) == Some(
                                                out_edge(r2, self@),
                                            );
                                        let fm = if fv > f2 {
                                            fv
                                        } else {
                                            f2
                                        };
                                        lemma_value_mono(m0, fv, fm);
                                        lemma_tuple_tail_mono(m2, vm, f2, fm);
                                        assert(sp_tuple_tail(m0, ev, (fm + 1) as nat) == Some(
                                            out_edge(r2, self@),
                                        ));
                                    } else {
                                        let f2 = choose|f: nat|
                                            #[trigger] sp_graph_tail(m2, vm, f) == Some(
                                                out_edge(r2, self@),
                                            );
                                        let fm = if fv > f2 {
                                            fv
                                        } else {
                                            f2
                                        };
                                        lemma_value_mono(m0, fv, fm);
                                        lemma_graph_tail_mono(m2, vm, f2, fm);
                                        assert(sp_graph_tail(m0, ev, (fm + 1) as nat) == Some(
                                            out_edge(r2, self@),
                                        ));
                                    }
                                }
                                r2
                            } else {
                                let r2 = self.generic_tail(v, in_tuple);
                                match r2 {
                                    Err(e) => {
                                        let res = Err(e);
                                        proof {
                                            let el = err_loc(e);
                                            if in_tuple {
                                                let f2 = choose|f: nat|
                                                    #[trigger] sp_tuple_tail(m2, vm, f) == Some(
                                                        PRes::<OpenEdgeModel>::Fail(el.0, el.1),
                                                    );
                                                let fm = if fv > f2 {
                                                    fv
                                                } else {
                                                    f2
                                                };
                                                lemma_value_mono(m0, fv, fm);
                                                lemma_tuple_tail_mono(m2, vm, f2, fm);
                                                assert(sp_tuple_tail(m0, ev, (fm + 1) as nat)
                                                    == Some(out_edge(res, self@)));
                                            } else {
                                                let f2 = choose|f: nat|
                                                    #[trigger] sp_graph_tail(m2, vm, f) == Some(
                                                        PRes::<OpenEdgeModel>::Fail(el.0, el.1),
                                                    );
                                                let fm = if fv > f2 {
                                                    fv
                                                } else {
                                                    f2
                                                };
                                                lemma_value_mono(m0, fv, fm);
                                                lemma_graph_tail_mono(m2, vm, f2, fm);
                                                assert(sp_graph_tail(m0, ev, (fm + 1) as nat)
                                                    == Some(out_edge(res, self@)));
                                            }
                                        }
                                        res
                                    },
                                    Ok(oe2) => {
                                        let ghost oem2 = oe2@;
                                        let ghost m3 = self@;
                                        let mut tv: Vec<OpenEdge> = Vec::new();
                                        tv.push(oe2);
                                        proof {
                                            lemma_oes_model(tv@);
                                            assert(oes_model(tv@) =~= seq![oem2]);
                                        }
                                        let res = Ok(OpenEdge(edge_val, Value::Tuple(tv)));
                                        proof {
                                            if in_tuple {
                                                let f2 = choose|f: nat|
                                                    #[trigger] sp_tuple_tail(m2, vm, f) == Some(
                                                        PRes::Done(oem2, m3),
                                                    );
                                                let fm = if fv > f2 {
                                                    fv
                                                } else {
                                                    f2
                                                };
                                                lemma_value_mono(m0, fv, fm);
                                                lemma_tuple_tail_mono(m2, vm, f2, fm);
                                                assert(sp_tuple_tail(m0, ev, (fm + 1) as nat)
                                                    == Some(out_edge(res, self@)));
                                            } else {
                                                let f2 = choose|f: nat|
                                                    #[trigger] sp_graph_tail(m2, vm, f) == Some(
                                                        PRes::Done(oem2, m3),
                                                    );
                                                let fm = if fv > f2 {
                                                    fv
                                                } else {
                                                    f2
                                                };
                                                lemma_value_mono(m0, fv, fm);
                                                lemma_graph_tail_mono(m2, vm, f2, fm);
                                                assert(sp_graph_tail(m0, ev, (fm + 1) as nat)
                                                    == Some(out_edge(res, self@)));
                                            }
                                        }
                                        res
                                    },
                                }
                            }
                        } else {
                            let ghost tokm = tok@;
                            let ghost rr = loc.row as int;
                            let ghost cc = loc.col as int;
                            let ghost m2 = self@;
                            self.lexer.push_next(tok, loc);
                            let res = Ok(OpenEdge(edge_val, v));
                            proof {
                                assert(self@ =~= lm_push(m2, tokm, rr, cc));
                                lemma_stack_weight_push(m2.stack, (tokm, (rr, cc)));
                                if in_tuple {
                                    assert(sp_tuple_tail(m0, ev, (fv + 1) as nat) == Some(
                                        out_edge(res, self@),
                                    ));
                                } else {
                                    assert(sp_graph_tail(m0, ev, (fv + 1) as nat) == Some(
                                        out_edge(res, self@),
                                    ));
                                }
                            }
                            res
                        }
                    },
                }
            },
        }
    }

    /// A run of bindings up to the terminator token, folded into `g`.
    fn generic_graph(&mut self, term_tok: &Token, g: Graph) -> (res: Result<Graph, Error>)
        requires
            lm_wf(old(self)@),
        ensures
            exists|f: nat|
                #[trigger] sp_graph(old(self)@, term_tok@, g@, f) == Some(
                    out_graph(res, final(self)@),
                ),
            res is Ok ==> lm_wf(final(self)@) && lm_measure(final(self)@) <= lm_measure(
                old(self)@,
            ) && final(self)@.input == old(self)@.input,
        decreases lm_measure(old(self)@), 2int,
    {
        proof {
            lemma_sp_next_measure(old(self)@);
        }
        let ghost m0 = self@;
        let ghost gm = g@;
        match self.lexer.next() {
            Err(e) => {
                let e2 = Error::from(e);
                let res = Err(e2);
                proof {
                    assert(sp_graph(m0, term_tok@, gm, 1nat) == Some(out_graph(res, self@)));
                }
                res
            },
            Ok((tok, loc)) => {
                let ghost tokm = tok@;
                let ghost m1 = self@;
                if token_eq(&tok, term_tok) {
                    let res = Ok(g);
                    proof {
                        assert(sp_graph(m0, term_tok@, gm, 1nat) == Some(out_graph(res, self@)));
                    }
                    res
                } else if matches!(tok.kind, TokenKind::Name) {
                    match self.exp_punct('=') {
                        Err(e) => {
                            let res = Err(e);
                            proof {
                                assert(sp_graph(m0, term_tok@, gm, 1nat) == Some(
                                    out_graph(res, self@),
                                ));
                            }
                            res
                        },
                        Ok(u) => {
                            let ghost m2 = self@;
                            let r2 = self.generic_tail(zero_tuple(), false);
                            match r2 {
                                Err(e) => {
                                    let ghost fgt = choose|f: nat|
                                        #[trigger] sp_graph_tail(m2, zero_tuple_model(), f)
                                            == Some(
                                            PRes::<OpenEdgeModel>::Fail(err_loc(e).0, err_loc(e).1),
                                        );
                                    let res = Err(e);
                                    proof {
                                        assert(sp_graph(m0, term_tok@, gm, (fgt + 1) as nat)
                                            == Some(out_graph(res, self@)));
                                    }
                                    res
                                },
                                Ok(oe) => {
                                    let ghost oem = oe@;
                                    let ghost m3 = self@;
                                    let ghost fgt = choose|f: nat|
                                        #[trigger] sp_graph_tail(m2, zero_tuple_model(), f)
                                            == Some(PRes::Done(oem, m3));
                                    let OpenEdge(l, s) = oe;
                                    let g2 = g.with(Value::Name(tok.value), l, s);
                                    let ghost gm2 = g2@;
                                    proof {
                                        assert(gm2 == gwith(gm, ValModel::Name(tokm.text), oem.label, oem.src));
                                    }
                                    let r3 = self.generic_graph(term_tok, g2);
                                    proof {
                                        let f3 = choose|f: nat|
                                            #[trigger] sp_graph(m3, term_tok@, gm2, f) == Some(
                                                out_graph(r3, self@),
                                            );
                                        let fm = if fgt > f3 {
                                            fgt
                                        } else {
                                            f3
                                        };
                                        lemma_graph_tail_mono(m2, zero_tuple_model(), fgt, fm);
                                        lemma_graph_mono(m3, term_tok@, gm2, f3, fm);
                                        assert(sp_graph(m0, term_tok@, gm, (fm + 1) as nat)
                                            == Some(out_graph(r3, self@)));
                                    }
                                    r3
                                },
                            }
                        },
                    }
                } else {
                    let mut msg = String::from_str("expected name or ");
                    let tr = term_tok.render();
                    let msg = msg.concat(tr.as_str());
                    let msg = msg.concat(", found: ");
                    let r = tok.render();
                    let msg = msg.concat(r.as_str());
                    let res = Err(Error::Decoding(msg, loc));
                    proof {
                        assert(sp_graph(m0, term_tok@, gm, 1nat) == Some(out_graph(res, self@)));
                    }
                    res
                }
            },
        }
    }

    /// A nested graph: bindings up to `}`.
    fn graph(&mut self, g: Graph) -> (res: Result<Graph, Error>)
        requires
            lm_wf(old(self)@),
        ensures
            exists|f: nat|
                #[trigger] sp_graph(old(self)@, close_brace_token(), g@, f) == Some(
                    out_graph(res, final(self)@),
                ),
            res is Ok ==> lm_wf(final(self)@) && lm_measure(final(self)@) <= lm_measure(
                old(self)@,
            ) && final(self)@.input == old(self)@.input,
        decreases lm_measure(old(self)@), 3int,
    {
        let mut cs: Vec<char> = Vec::new();
        cs.push('}');
        let term = Token { kind: TokenKind::Punctuation, value: lexer::chars_to_string(&cs) };
        proof {
            assert(term@.text =~= seq!['}']);
            assert(term@ =~= close_brace_token());
        }
        self.generic_graph(&term, g)
    }
}

/// Empty input decodes to the empty graph, not an error.
pub proof fn lemma_empty_input_decodes_empty()
    ensures
        sp_document(lexer_init(Seq::empty()), 1nat) == Some(
            PRes::Done(Seq::<(ValModel, OpenEdgeModel)>::empty(), lexer_init(Seq::empty())),
        ),
{
    let m = lexer_init(Seq::empty());
    assert(m.stack.len() == 0);
    assert(sp_next(m).0 == Ok::<(TokenModel, int, int), (char, int, int)>((end_token(), 0, 0)));
    assert(sp_next(m).1 == m);
}

} // verus!
