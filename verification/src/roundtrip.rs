//! Reading back what `to_string` writes: parsing the text of an expression
//! gives the expression itself.
//!
//! The proof follows the parser's two phases. The tokens that the first
//! phase reads from the text of a subexpression are its "flattening": the
//! subexpression's operators with their operands, down to the operands that
//! the text puts in parentheses (each of which the parser reads back whole,
//! by induction). The second phase then applies, again and again, the
//! operator of highest precedence; that operator always stands between
//! operands that are already assembled, so each step collapses one node of
//! the tree, and the last step leaves the whole expression.
use vstd::prelude::*;

use crate::parse::{
    Lexeme, assemble, close_paren, digit_run, digits_value, find_op, is_tree, lemma_tree_len_bounds,
    lemma_tree_renders, lex_from, parse_chars, pivots_within, select, select_from, tree_len,
};
use crate::pivot::{Op, Pivot, face_of, is_valid_code, op_of_code};
use crate::render::{lemma_render_span, parenthesize, render, render_text, renderable, var_char};
use crate::expression::{eval, apply_spec, height_after, lemma_height_concat, runs_ok, step_ok};
use crate::number::Number;
use crate::text::{decimal, digit_char};

verus! {

/// The bytes of the subtree whose last byte is `codes[e - 1]`.
pub open spec fn subtree(codes: Seq<u8>, e: int) -> Seq<u8> {
    codes.subrange(e - tree_len(codes, e).unwrap(), e)
}

/// A subtree ends at `e`, and all its bytes are pivots.
pub open spec fn node_ok(codes: Seq<u8>, e: int) -> bool {
    &&& tree_len(codes, e) is Some
    &&& pivots_within(codes, e - tree_len(codes, e).unwrap(), e, 13)
}

/// The subtree at `e` is an operator applied to operands.
pub open spec fn is_op_node(codes: Seq<u8>, e: int) -> bool {
    243 <= codes[e - 1] <= 254
}

/// The precedence with which the subtree at `e` is rendered.
pub open spec fn node_prec(codes: Seq<u8>, e: int) -> int {
    render(codes, e).unwrap().1
}

/// Whether the text of the subtree at `e` is written in parentheses when it
/// is an operand of `op` (on the right of a binary one when `right`).
pub open spec fn wrapped(codes: Seq<u8>, e: int, op: Op, right: bool) -> bool {
    if right && op.arity() == 2 {
        !(node_prec(codes, e) > op.prec())
    } else {
        !(node_prec(codes, e) >= op.prec())
    }
}

/// The end of the left operand of the binary operator node at `e`.
pub open spec fn left_end(codes: Seq<u8>, e: int) -> int {
    e - 1 - tree_len(codes, e - 1).unwrap()
}

/// The tokens of the text of the subtree at `e`, where the subtrees whose
/// ends are in `coll` have already been assembled into single parts, and
/// an operand written in parentheses is read as a single part.
pub open spec fn flatc(codes: Seq<u8>, e: int, coll: Set<int>) -> Seq<Lexeme>
    decreases e,
{
    if e <= 0 || tree_len(codes, e) is None {
        Seq::empty()
    } else if coll.contains(e) || !is_op_node(codes, e) {
        seq![Lexeme::Part(subtree(codes, e))]
    } else {
        let op = op_of_code(codes[e - 1]);
        proof {
            lemma_tree_len_bounds(codes, e);
            lemma_tree_len_bounds(codes, e - 1);
        }
        let right = if wrapped(codes, e - 1, op, true) {
            seq![Lexeme::Part(subtree(codes, e - 1))]
        } else {
            flatc(codes, e - 1, coll)
        };
        if op.arity() == 1 {
            seq![Lexeme::Op(op)] + right
        } else {
            let le = left_end(codes, e);
            let left = if wrapped(codes, le, op, false) {
                seq![Lexeme::Part(subtree(codes, le))]
            } else {
                flatc(codes, le, coll)
            };
            left + seq![Lexeme::Op(op)] + right
        }
    }
}

/// The operands of an operator node are nodes, whose subtrees are the
/// operator node's subtree without its last byte.
proof fn lemma_children(codes: Seq<u8>, e: int)
    requires
        node_ok(codes, e),
        is_op_node(codes, e),
    ensures
        node_ok(codes, e - 1),
        tree_len(codes, e - 1).unwrap() + 1 <= tree_len(codes, e).unwrap(),
        op_of_code(codes[e - 1]).arity() == 1 ==> tree_len(codes, e).unwrap() == tree_len(codes, e - 1).unwrap() + 1,
        op_of_code(codes[e - 1]).arity() == 1 ==> subtree(codes, e) == subtree(codes, e - 1).push(codes[e - 1]),
        op_of_code(codes[e - 1]).arity() == 2 ==> {
            let le = left_end(codes, e);
            &&& node_ok(codes, le)
            &&& le - tree_len(codes, le).unwrap() == e - tree_len(codes, e).unwrap()
            &&& tree_len(codes, e).unwrap() == 1 + tree_len(codes, le).unwrap() + tree_len(codes, e - 1).unwrap()
            &&& subtree(codes, e) == (subtree(codes, le) + subtree(codes, e - 1)).push(codes[e - 1])
        },
{
    lemma_tree_len_bounds(codes, e);
    lemma_tree_len_bounds(codes, e - 1);
    let k = tree_len(codes, e).unwrap();
    let r = tree_len(codes, e - 1).unwrap();
    if op_of_code(codes[e - 1]).arity() == 1 {
        assert(subtree(codes, e) =~= subtree(codes, e - 1).push(codes[e - 1]));
    } else {
        let le = e - 1 - r;
        lemma_tree_len_bounds(codes, le);
        let l = tree_len(codes, le).unwrap();
        assert(k == 1 + l + r);
        assert(subtree(codes, e) =~= (subtree(codes, le) + subtree(codes, e - 1)).push(codes[e - 1]));
    }
}

/// A node renders, spanning its subtree.
proof fn lemma_node_renders(codes: Seq<u8>, e: int)
    requires
        node_ok(codes, e),
    ensures
        render(codes, e) is Some,
        render(codes, e).unwrap().2 == tree_len(codes, e).unwrap(),
        is_op_node(codes, e) ==> node_prec(codes, e) == op_of_code(codes[e - 1]).prec(),
        !is_op_node(codes, e) ==> node_prec(codes, e) == usize::MAX,
{
    lemma_tree_renders(codes, e, 13);
    lemma_tree_len_bounds(codes, e);
}

/// Which subtrees are assembled matters only inside the subtree.
proof fn lemma_flatc_local(codes: Seq<u8>, e: int, coll: Set<int>, y: int)
    requires
        node_ok(codes, e),
        !(e - tree_len(codes, e).unwrap() < y <= e),
    ensures
        flatc(codes, e, coll.insert(y)) == flatc(codes, e, coll),
    decreases e,
{
    lemma_tree_len_bounds(codes, e);
    if !coll.contains(e) && is_op_node(codes, e) {
        lemma_children(codes, e);
        lemma_flatc_local(codes, e - 1, coll, y);
        if op_of_code(codes[e - 1]).arity() == 2 {
            lemma_flatc_local(codes, left_end(codes, e), coll, y);
        }
    }
}

/// The tokens of a subtree end with a part.
proof fn lemma_flatc_ends_with_part(codes: Seq<u8>, e: int, coll: Set<int>)
    requires
        node_ok(codes, e),
    ensures
        flatc(codes, e, coll).len() > 0,
        flatc(codes, e, coll).last() is Part,
    decreases e,
{
    lemma_tree_len_bounds(codes, e);
    if !coll.contains(e) && is_op_node(codes, e) {
        lemma_children(codes, e);
        lemma_flatc_ends_with_part(codes, e - 1, coll);
    }
}

/// Whether the selection scan takes `new` over the `old` it has chosen.
pub open spec fn beats(new: Op, old: Op) -> bool {
    new.prec() > old.prec() || (new.prec() == old.prec() && new.arity() == 1)
}

/// The choice of the scan over `a`'s tokens then `b`'s, given each part's
/// own choice.
pub open spec fn combine(a: Option<(int, Op)>, b: Option<(int, Op)>) -> Option<(int, Op)> {
    match b {
        None => a,
        Some((_, y)) => match a {
            None => b,
            Some((_, x)) => if beats(y, x) {
                b
            } else {
                a
            },
        },
    }
}

/// A choice moved `m` tokens to the right.
pub open spec fn shift(o: Option<(int, Op)>, m: int) -> Option<(int, Op)> {
    match o {
        Some((i, op)) => Some((i + m, op)),
        None => None,
    }
}

/// The unary operators are exactly those of the highest precedence.
proof fn lemma_prec_arity(op: Op)
    ensures
        op.prec() <= 6,
        op.prec() == 6 <==> op.arity() == 1,
        243 <= op.code() <= 254,
        op_of_code(op.code()) == op,
{
}

/// The operator that a byte stands for has that byte as its code.
proof fn lemma_code_of_op(c: u8)
    requires
        243 <= c <= 254,
    ensures
        op_of_code(c).code() == c,
{
}

proof fn lemma_combine_assoc(a: Option<(int, Op)>, b: Option<(int, Op)>, c: Option<(int, Op)>)
    ensures
        combine(combine(a, b), c) == combine(a, combine(b, c)),
{
    if let Some((_, x)) = a {
        lemma_prec_arity(x);
    }
    if let Some((_, y)) = b {
        lemma_prec_arity(y);
    }
    if let Some((_, z)) = c {
        lemma_prec_arity(z);
    }
}

/// Scanning from `j` with a choice already made equals combining that
/// choice with the scan's own.
proof fn lemma_select_fold(toks: Seq<Lexeme>, j: int, best: Option<(int, Op)>)
    requires
        0 <= j <= toks.len(),
    ensures
        select_from(toks, j, best) == combine(best, select_from(toks, j, None)),
    decreases toks.len() - j,
{
    if j < toks.len() {
        lemma_select_fold(toks, j + 1, best);
        match toks[j] {
            Lexeme::Op(op) => {
                let nb = match best {
                    None => Some((j, op)),
                    Some((_, b)) => if op.prec() > b.prec() || (op.prec() == b.prec() && op.arity() == 1) {
                        Some((j, op))
                    } else {
                        best
                    },
                };
                assert(nb == combine(best, Some((j, op))));
                lemma_select_fold(toks, j + 1, nb);
                lemma_select_fold(toks, j + 1, Some((j, op)));
                lemma_combine_assoc(best, Some((j, op)), select_from(toks, j + 1, None));
            },
            Lexeme::Part(_) => {},
        }
    }
}

proof fn lemma_select_suffix(a: Seq<Lexeme>, b: Seq<Lexeme>, j: int)
    requires
        0 <= j <= b.len(),
    ensures
        select_from(a + b, a.len() + j, None) == shift(select_from(b, j, None), a.len() as int),
    decreases b.len() - j,
{
    if j < b.len() {
        assert((a + b)[a.len() + j] == b[j]);
        lemma_select_suffix(a, b, j + 1);
        match b[j] {
            Lexeme::Op(op) => {
                lemma_select_fold(a + b, a.len() + j + 1, Some((a.len() + j, op)));
                lemma_select_fold(b, j + 1, Some((j, op)));
            },
            Lexeme::Part(_) => {},
        }
    }
}

proof fn lemma_select_prefix(a: Seq<Lexeme>, b: Seq<Lexeme>, j: int, best: Option<(int, Op)>)
    requires
        0 <= j <= a.len(),
    ensures
        select_from(a + b, j, best) == select_from(a + b, a.len() as int, select_from(a, j, best)),
    decreases a.len() - j,
{
    if j < a.len() {
        assert((a + b)[j] == a[j]);
        let nb = match a[j] {
            Lexeme::Op(op) => match best {
                None => Some((j, op)),
                Some((_, b)) => if op.prec() > b.prec() || (op.prec() == b.prec() && op.arity() == 1) {
                    Some((j, op))
                } else {
                    best
                },
            },
            Lexeme::Part(_) => best,
        };
        lemma_select_prefix(a, b, j + 1, nb);
    }
}

/// The choice over two runs of tokens, from the choice over each.
proof fn lemma_select_concat(a: Seq<Lexeme>, b: Seq<Lexeme>)
    ensures
        select(a + b) == combine(select(a), shift(select(b), a.len() as int)),
{
    lemma_select_prefix(a, b, 0, None);
    lemma_select_fold(a + b, a.len() as int, select(a));
    lemma_select_suffix(a, b, 0);
    assert(a.len() + 0 == a.len());
}

proof fn lemma_select_single(x: Lexeme)
    ensures
        select(seq![x]) == match x {
            Lexeme::Op(op) => Some((0int, op)),
            Lexeme::Part(_) => None,
        },
{
    assert(select_from(seq![x], 1, select_from(seq![x], 0, None)) == select_from(seq![x], 0, None)) by {
        reveal_with_fuel(select_from, 2);
    }
    reveal_with_fuel(select_from, 2);
}

/// One step of the assembling phase: the tokens after the selected
/// operator is applied, if it can be.
pub open spec fn assemble_step(toks: Seq<Lexeme>) -> Option<Seq<Lexeme>> {
    match select(toks) {
        None => None,
        Some((i, op)) => {
            if i < 0 || i >= toks.len() - 1 {
                None
            } else if op.arity() == 1 {
                match toks[i + 1] {
                    Lexeme::Part(f) => Some(toks.take(i) + seq![Lexeme::Part(f.push(op.code()))] + toks.skip(i + 2)),
                    Lexeme::Op(_) => None,
                }
            } else if i == 0 {
                None
            } else {
                match (toks[i - 1], toks[i + 1]) {
                    (Lexeme::Part(l), Lexeme::Part(r)) => Some(
                        toks.take(i - 1) + seq![Lexeme::Part((l + r).push(op.code()))] + toks.skip(i + 2),
                    ),
                    _ => None,
                }
            }
        },
    }
}

proof fn lemma_assemble_step(toks: Seq<Lexeme>)
    requires
        assemble_step(toks) is Some,
    ensures
        assemble(toks) == assemble(assemble_step(toks).unwrap()),
        assemble_step(toks).unwrap().len() < toks.len(),
{
}

/// A step taken inside a run of tokens, when the choice over the whole
/// falls in that run.
proof fn lemma_step_local(p: Seq<Lexeme>, m: Seq<Lexeme>, q: Seq<Lexeme>)
    requires
        select(p + m + q) == shift(select(m), p.len() as int),
        assemble_step(m) is Some,
    ensures
        assemble_step(p + m + q) == Some(p + assemble_step(m).unwrap() + q),
{
    let l = p + m + q;
    let (i, op) = select(m).unwrap();
    let k = i + p.len();
    assert(l[k + 1] == m[i + 1]);
    if op.arity() == 1 {
        let f = m[i + 1]->Part_0;
        assert(l.take(k) + seq![Lexeme::Part(f.push(op.code()))] + l.skip(k + 2) =~= p + (m.take(i) + seq![
            Lexeme::Part(f.push(op.code())),
        ] + m.skip(i + 2)) + q);
    } else {
        assert(l[k - 1] == m[i - 1]);
        let lf = m[i - 1]->Part_0;
        let rf = m[i + 1]->Part_0;
        assert(l.take(k - 1) + seq![Lexeme::Part((lf + rf).push(op.code()))] + l.skip(k + 2) =~= p + (m.take(
            i - 1,
        ) + seq![Lexeme::Part((lf + rf).push(op.code()))] + m.skip(i + 2)) + q);
    }
}

/// The tokens of an operand of the operator node at `e`: a single part when
/// the operand is written in parentheses, its own tokens otherwise.
pub open spec fn operand(codes: Seq<u8>, ce: int, op: Op, right: bool, coll: Set<int>) -> Seq<Lexeme> {
    if wrapped(codes, ce, op, right) {
        seq![Lexeme::Part(subtree(codes, ce))]
    } else {
        flatc(codes, ce, coll)
    }
}

/// The operands' tokens around the operator's.
proof fn lemma_flatc_unfold(codes: Seq<u8>, x: int, coll: Set<int>)
    requires
        node_ok(codes, x),
        is_op_node(codes, x),
        !coll.contains(x),
    ensures
        ({
            let op = op_of_code(codes[x - 1]);
            if op.arity() == 1 {
                flatc(codes, x, coll) == seq![Lexeme::Op(op)] + operand(codes, x - 1, op, true, coll)
            } else {
                flatc(codes, x, coll) == operand(codes, left_end(codes, x), op, false, coll) + seq![
                    Lexeme::Op(op),
                ] + operand(codes, x - 1, op, true, coll)
            }
        }),
{
    lemma_tree_len_bounds(codes, x);
}

/// An operand is a single part, which no choice falls on, or the tokens of
/// an operator node not yet assembled.
proof fn lemma_operand_cases(codes: Seq<u8>, ce: int, op: Op, right: bool, coll: Set<int>)
    requires
        node_ok(codes, ce),
    ensures
        operand(codes, ce, op, right, coll) == seq![Lexeme::Part(subtree(codes, ce))] || (!wrapped(
            codes,
            ce,
            op,
            right,
        ) && is_op_node(codes, ce) && !coll.contains(ce) && operand(codes, ce, op, right, coll) == flatc(
            codes,
            ce,
            coll,
        )),
        operand(codes, ce, op, right, coll) == seq![Lexeme::Part(subtree(codes, ce))] ==> select(
            operand(codes, ce, op, right, coll),
        ) is None,
{
    lemma_tree_len_bounds(codes, ce);
    lemma_select_single(Lexeme::Part(subtree(codes, ce)));
}

/// Which subtrees are assembled matters for an operand only inside it.
proof fn lemma_operand_local(codes: Seq<u8>, ce: int, op: Op, right: bool, coll: Set<int>, y: int)
    requires
        node_ok(codes, ce),
        !(ce - tree_len(codes, ce).unwrap() < y <= ce),
    ensures
        operand(codes, ce, op, right, coll.insert(y)) == operand(codes, ce, op, right, coll),
{
    lemma_flatc_local(codes, ce, coll, y);
}

/// In the tokens of an operator node not yet assembled, the choice falls
/// on an operator that stands between assembled operands: applying it
/// assembles one more node `y` of the subtree.
proof fn lemma_reduce(codes: Seq<u8>, x: int, coll: Set<int>) -> (y: int)
    requires
        node_ok(codes, x),
        is_op_node(codes, x),
        !coll.contains(x),
    ensures
        x - tree_len(codes, x).unwrap() < y <= x,
        !coll.contains(y),
        select(flatc(codes, x, coll)) is Some,
        select(flatc(codes, x, coll)).unwrap().1.prec() >= op_of_code(codes[x - 1]).prec(),
        assemble_step(flatc(codes, x, coll)) == Some(flatc(codes, x, coll.insert(y))),
    decreases x,
{
    let op = op_of_code(codes[x - 1]);
    lemma_tree_len_bounds(codes, x);
    lemma_tree_len_bounds(codes, x - 1);
    lemma_children(codes, x);
    lemma_node_renders(codes, x - 1);
    lemma_prec_arity(op);
    lemma_code_of_op(codes[x - 1]);
    lemma_flatc_unfold(codes, x, coll);
    let c = x - 1;
    let rr = operand(codes, c, op, true, coll);
    lemma_operand_cases(codes, c, op, true, coll);
    if op.arity() == 1 {
        let l = flatc(codes, x, coll);
        lemma_select_concat(seq![Lexeme::Op(op)], rr);
        lemma_select_single(Lexeme::Op(op));
        if rr == seq![Lexeme::Part(subtree(codes, c))] {
            assert(flatc(codes, x, coll.insert(x)) == seq![Lexeme::Part(subtree(codes, x))]);
            assert(assemble_step(l) == Some(seq![Lexeme::Part(subtree(codes, x))])) by {
                assert(l.take(0) + seq![Lexeme::Part(subtree(codes, c).push(op.code()))] + l.skip(2) =~= seq![
                    Lexeme::Part(subtree(codes, x)),
                ]);
            }
            x
        } else {
            let y = lemma_reduce(codes, c, coll);
            let (i, op2) = select(rr).unwrap();
            lemma_prec_arity(op2);
            lemma_node_renders(codes, c);
            lemma_prec_arity(op_of_code(codes[c - 1]));
            assert(select(l) == shift(select(rr), 1));
            lemma_step_local(seq![Lexeme::Op(op)], rr, Seq::empty());
            assert(l == seq![Lexeme::Op(op)] + rr + Seq::empty());
            lemma_flatc_unfold(codes, x, coll.insert(y));
            assert(operand(codes, c, op, true, coll.insert(y)) == flatc(codes, c, coll.insert(y)));
            assert(flatc(codes, x, coll.insert(y)) == seq![Lexeme::Op(op)] + flatc(codes, c, coll.insert(y)) + Seq::<
                Lexeme,
            >::empty());
            y
        }
    } else {
        let le = left_end(codes, x);
        lemma_node_renders(codes, le);
        let ll = operand(codes, le, op, false, coll);
        lemma_operand_cases(codes, le, op, false, coll);
        let l = flatc(codes, x, coll);
        let lo = ll + seq![Lexeme::Op(op)];
        lemma_select_concat(ll, seq![Lexeme::Op(op)]);
        lemma_select_single(Lexeme::Op(op));
        lemma_select_concat(lo, rr);
        let left_atomic = ll == seq![Lexeme::Part(subtree(codes, le))];
        let right_atomic = rr == seq![Lexeme::Part(subtree(codes, c))];
        if left_atomic && right_atomic {
            assert(flatc(codes, x, coll.insert(x)) == seq![Lexeme::Part(subtree(codes, x))]);
            assert(select(l) == Some((1int, op)));
            assert(assemble_step(l) == Some(seq![Lexeme::Part(subtree(codes, x))])) by {
                assert(l.take(0) + seq![Lexeme::Part((subtree(codes, le) + subtree(codes, c)).push(op.code()))]
                    + l.skip(3) =~= seq![Lexeme::Part(subtree(codes, x))]);
            }
            x
        } else {
            let choose_left = if left_atomic {
                false
            } else if right_atomic {
                true
            } else {
                let (_, a) = select(ll).unwrap();
                let (_, b) = select(rr).unwrap();
                !beats(b, a)
            };
            if choose_left {
                let y = lemma_reduce(codes, le, coll);
                let (_, a) = select(ll).unwrap();
                lemma_prec_arity(a);
                lemma_prec_arity(op_of_code(codes[le - 1]));
                assert(select(l) == shift(select(ll), 0));
                assert(l == Seq::<Lexeme>::empty() + ll + (seq![Lexeme::Op(op)] + rr));
                lemma_step_local(Seq::empty(), ll, seq![Lexeme::Op(op)] + rr);
                lemma_flatc_unfold(codes, x, coll.insert(y));
                lemma_operand_local(codes, c, op, true, coll, y);
                assert(operand(codes, le, op, false, coll.insert(y)) == flatc(codes, le, coll.insert(y)));
                assert(flatc(codes, x, coll.insert(y)) == Seq::<Lexeme>::empty() + flatc(codes, le, coll.insert(y)) + (
                seq![Lexeme::Op(op)] + rr));
                y
            } else {
                let y = lemma_reduce(codes, c, coll);
                let (_, b) = select(rr).unwrap();
                lemma_prec_arity(b);
                lemma_node_renders(codes, c);
                lemma_prec_arity(op_of_code(codes[c - 1]));
                assert(select(l) == shift(select(rr), lo.len() as int));
                assert(l == lo + rr + Seq::<Lexeme>::empty());
                lemma_step_local(lo, rr, Seq::empty());
                lemma_flatc_unfold(codes, x, coll.insert(y));
                lemma_operand_local(codes, le, op, false, coll, y);
                assert(operand(codes, c, op, true, coll.insert(y)) == flatc(codes, c, coll.insert(y)));
                assert(flatc(codes, x, coll.insert(y)) == lo + flatc(codes, c, coll.insert(y)) + Seq::<
                    Lexeme,
                >::empty());
                y
            }
        }
    }
}

/// The assembling phase turns the tokens of a subtree into its bytes.
proof fn lemma_assemble_flatc(codes: Seq<u8>, x: int, coll: Set<int>)
    requires
        node_ok(codes, x),
    ensures
        assemble(flatc(codes, x, coll)) == Ok::<Seq<u8>, Seq<char>>(subtree(codes, x)),
    decreases flatc(codes, x, coll).len(),
{
    lemma_tree_len_bounds(codes, x);
    if coll.contains(x) || !is_op_node(codes, x) {
        lemma_select_single(Lexeme::Part(subtree(codes, x)));
    } else {
        let y = lemma_reduce(codes, x, coll);
        lemma_assemble_step(flatc(codes, x, coll));
        lemma_assemble_flatc(codes, x, coll.insert(y));
    }
}

/// Stepping over characters that are not parentheses leaves the search for
/// the closing parenthesis where it was.
proof fn lemma_skip_plain(chars: Seq<char>, start: int, n: int, hi: int, depth: int)
    requires
        0 <= start,
        0 <= n,
        start + n <= hi,
        depth != 0,
        forall|i: int| start <= i < start + n ==> #[trigger] chars[i] != '(' && chars[i] != ')',
    ensures
        close_paren(chars, start, hi, depth) == close_paren(chars, start + n, hi, depth),
    decreases n,
{
    if n > 0 {
        lemma_skip_plain(chars, start + 1, n - 1, hi, depth);
    }
}

/// A decimal numeral is made of digits.
proof fn lemma_decimal_digits(n: nat)
    ensures
        decimal(n).len() >= 1,
        forall|i: int| 0 <= i < decimal(n).len() ==> '0' <= #[trigger] decimal(n)[i] <= '9',
    decreases n,
{
    if n >= 10 {
        lemma_decimal_digits(n / 10);
    }
}

proof fn lemma_digit_char_value(d: nat)
    requires
        d < 10,
    ensures
        (digit_char(d) as u32) - 48 == d,
        '0' <= digit_char(d) <= '9',
{
}

/// A run of `m` digits followed by something else.
proof fn lemma_digit_run_exact(chars: Seq<char>, pos: int, m: int, hi: int)
    requires
        0 <= pos,
        0 <= m,
        pos + m <= hi <= chars.len(),
        forall|i: int| pos <= i < pos + m ==> '0' <= #[trigger] chars[i] <= '9',
        pos + m < hi ==> !('0' <= chars[pos + m] <= '9'),
    ensures
        digit_run(chars, pos, hi) == m,
    decreases m,
{
    if m > 0 {
        lemma_digit_run_exact(chars, pos + 1, m - 1, hi);
    }
}

/// The value that the parser reads from the numeral of `n`.
proof fn lemma_digits_value(chars: Seq<char>, pos: int, n: nat)
    requires
        n <= 155,
        0 <= pos,
        pos + decimal(n).len() <= chars.len(),
        chars.subrange(pos, pos + decimal(n).len()) == decimal(n),
    ensures
        digits_value(chars, pos, decimal(n).len()) == n,
    decreases n,
{
    lemma_decimal_digits(n);
    if n < 10 {
        assert(chars[pos] == chars.subrange(pos, pos + 1)[0]);
        assert(decimal(n) == seq![digit_char(n)]);
        lemma_digit_char_value(n);
        assert(digits_value(chars, pos, 0) == 0);
        assert(digits_value(chars, pos, 1) == 0 * 10 + ((chars[pos] as u32) - 48));
    } else {
        let m = decimal(n / 10).len() as int;
        lemma_decimal_digits(n / 10);
        assert(chars.subrange(pos, pos + m) =~= decimal(n / 10)) by {
            assert forall|i: int| 0 <= i < m implies #[trigger] chars.subrange(pos, pos + m)[i] == decimal(n / 10)[i] by {
                assert(chars.subrange(pos, pos + m)[i] == chars.subrange(pos, pos + m + 1)[i]);
            }
        }
        lemma_digits_value(chars, pos, n / 10);
        assert(chars[pos + m] == chars.subrange(pos, pos + m + 1)[m]);
        lemma_digit_char_value(n % 10);
        assert(decimal(n) == decimal(n / 10).push(digit_char(n % 10)));
        assert(decimal(n).len() == m + 1);
        assert(chars[pos + m] == digit_char(n % 10));
        let k = decimal(n).len();
        assert(digits_value(chars, pos, k) == (n / 10) * 10 + ((chars[pos + k - 1] as u32) - 48));
    }
}

/// The pieces of a text placed at `start`.
proof fn lemma_split(chars: Seq<char>, start: int, a: Seq<char>, b: Seq<char>)
    requires
        0 <= start,
        start + a.len() + b.len() <= chars.len(),
        chars.subrange(start, start + a.len() + b.len()) == a + b,
    ensures
        chars.subrange(start, start + a.len()) == a,
        chars.subrange(start + a.len(), start + a.len() + b.len()) == b,
        forall|i: int| 0 <= i < a.len() ==> chars[start + i] == #[trigger] a[i],
        forall|i: int| 0 <= i < b.len() ==> chars[start + a.len() + i] == #[trigger] b[i],
{
    let full = chars.subrange(start, start + a.len() + b.len());
    assert forall|i: int| 0 <= i < a.len() implies chars[start + i] == #[trigger] a[i] by {
        assert(full[i] == chars[start + i]);
        assert(full[i] == (a + b)[i]);
    }
    assert forall|i: int| 0 <= i < b.len() implies chars[start + a.len() + i] == #[trigger] b[i] by {
        assert(full[a.len() + i] == chars[start + a.len() + i]);
        assert(full[a.len() + i] == (a + b)[a.len() + i]);
    }
    assert(chars.subrange(start, start + a.len()) =~= a);
    assert(chars.subrange(start + a.len(), start + a.len() + b.len()) =~= b);
}

/// A binary operator's symbol after an assembled operand.
proof fn lemma_find_binary(chars: Seq<char>, pos: int, hi: int, op: Op)
    requires
        op.arity() == 2,
        0 <= pos,
        pos + op.len() <= hi <= chars.len(),
        chars.subrange(pos, pos + op.len()) == face_of(op),
    ensures
        find_op(chars, pos, hi, true, 0) == Some(op),
{
    assert(chars[pos] == chars.subrange(pos, pos + op.len())[0]);
    if op.len() == 2 {
        assert(chars[pos + 1] == chars.subrange(pos, pos + op.len())[1]);
    }
    reveal_with_fuel(find_op, 13);
}

/// A unary operator's symbol where no operand precedes it.
proof fn lemma_find_unary(chars: Seq<char>, pos: int, hi: int, op: Op)
    requires
        op.arity() == 1,
        0 <= pos < hi <= chars.len(),
        chars[pos] == face_of(op)[0],
    ensures
        find_op(chars, pos, hi, false, 0) == Some(op),
{
    reveal_with_fuel(find_op, 3);
}

/// No operator's symbol starts with a parenthesis.
proof fn lemma_find_paren(chars: Seq<char>, pos: int, hi: int, after_part: bool)
    requires
        0 <= pos < hi <= chars.len(),
        chars[pos] == '(',
    ensures
        find_op(chars, pos, hi, after_part, 0) is None,
{
    reveal_with_fuel(find_op, 13);
}

/// The text of the subtree at `e`.
pub open spec fn text(codes: Seq<u8>, e: int) -> Seq<char> {
    render(codes, e).unwrap().0
}

/// The text of an operand of `op`, in parentheses where it needs them.
pub open spec fn piece(codes: Seq<u8>, ce: int, op: Op, right: bool) -> Seq<char> {
    parenthesize(text(codes, ce), !wrapped(codes, ce, op, right))
}

/// The text of an operator node from the texts of its operands.
proof fn lemma_text_unfold(codes: Seq<u8>, e: int)
    requires
        node_ok(codes, e),
    ensures
        is_op_node(codes, e) ==> {
            let op = op_of_code(codes[e - 1]);
            if op.arity() == 1 {
                text(codes, e) == face_of(op) + piece(codes, e - 1, op, true)
            } else {
                text(codes, e) == piece(codes, left_end(codes, e), op, false) + face_of(op) + piece(
                    codes,
                    e - 1,
                    op,
                    true,
                )
            }
        },
        !is_op_node(codes, e) && codes[e - 1] <= 155 ==> text(codes, e) == decimal(codes[e - 1] as nat),
        !is_op_node(codes, e) && codes[e - 1] > 155 ==> 230 <= codes[e - 1] <= 242 && text(codes, e) == seq![
            var_char((242 - codes[e - 1]) as u8),
        ],
{
    lemma_tree_len_bounds(codes, e);
    lemma_node_renders(codes, e);
    assert(is_valid_code(codes[e - 1]));
    if is_op_node(codes, e) {
        lemma_children(codes, e);
        lemma_node_renders(codes, e - 1);
        if op_of_code(codes[e - 1]).arity() == 2 {
            lemma_node_renders(codes, left_end(codes, e));
        }
    }
}

/// Operator symbols are one or two characters, neither digits, letters nor
/// parentheses.
proof fn lemma_face(op: Op)
    ensures
        face_of(op).len() == op.len(),
        1 <= op.len() <= 2,
        op.arity() == 1 ==> op.len() == 1,
        forall|i: int| 0 <= i < face_of(op).len() ==> {
            let ch = #[trigger] face_of(op)[i];
            &&& ch != '(' && ch != ')'
            &&& !('0' <= ch <= '9')
            &&& !('a' <= ch <= 'z')
        },
{
}

/// The text of a subtree closes every parenthesis it opens, and never
/// closes more than it has opened.
proof fn lemma_balanced(codes: Seq<u8>, e: int, chars: Seq<char>, start: int, hi: int, depth: int)
    requires
        node_ok(codes, e),
        0 <= start,
        start + text(codes, e).len() <= hi <= chars.len(),
        chars.subrange(start, start + text(codes, e).len()) == text(codes, e),
        depth >= 1,
    ensures
        close_paren(chars, start, hi, depth) == close_paren(chars, start + text(codes, e).len(), hi, depth),
    decreases e, 0int,
{
    lemma_text_unfold(codes, e);
    lemma_tree_len_bounds(codes, e);
    let t = text(codes, e);
    lemma_split(chars, start, t, Seq::empty());
    if is_op_node(codes, e) {
        let op = op_of_code(codes[e - 1]);
        lemma_children(codes, e);
        lemma_face(op);
        let f = face_of(op);
        if op.arity() == 1 {
            let pc = piece(codes, e - 1, op, true);
            lemma_split(chars, start, f, pc);
            assert forall|i: int| start <= i < start + f.len() implies #[trigger] chars[i] != '(' && chars[i]
                != ')' by {
                assert(chars[start + (i - start)] == f[i - start]);
            }
            lemma_skip_plain(chars, start, f.len() as int, hi, depth);
            lemma_balanced_piece(codes, e - 1, op, true, chars, start + f.len(), hi, depth);
        } else {
            let le = left_end(codes, e);
            let pl = piece(codes, le, op, false);
            let pr = piece(codes, e - 1, op, true);
            assert(t == (pl + f) + pr);
            lemma_split(chars, start, pl + f, pr);
            lemma_split(chars, start, pl, f);
            lemma_balanced_piece(codes, le, op, false, chars, start, hi, depth);
            assert forall|i: int| start + pl.len() <= i < start + pl.len() + f.len() implies #[trigger] chars[i]
                != '(' && chars[i] != ')' by {
                assert(chars[start + pl.len() + (i - start - pl.len())] == f[i - start - pl.len()]);
            }
            lemma_skip_plain(chars, start + pl.len(), f.len() as int, hi, depth);
            lemma_balanced_piece(codes, e - 1, op, true, chars, start + pl.len() + f.len(), hi, depth);
        }
    } else {
        if codes[e - 1] <= 155 {
            lemma_decimal_digits(codes[e - 1] as nat);
        }
        assert forall|i: int| start <= i < start + t.len() implies #[trigger] chars[i] != '(' && chars[i] != ')' by {
            assert(chars[start + (i - start)] == t[i - start]);
        }
        lemma_skip_plain(chars, start, t.len() as int, hi, depth);
    }
}

/// The same for the text of an operand, in parentheses or not.
proof fn lemma_balanced_piece(
    codes: Seq<u8>,
    ce: int,
    op: Op,
    right: bool,
    chars: Seq<char>,
    start: int,
    hi: int,
    depth: int,
)
    requires
        node_ok(codes, ce),
        0 <= start,
        start + piece(codes, ce, op, right).len() <= hi <= chars.len(),
        chars.subrange(start, start + piece(codes, ce, op, right).len()) == piece(codes, ce, op, right),
        depth >= 1,
    ensures
        close_paren(chars, start, hi, depth) == close_paren(
            chars,
            start + piece(codes, ce, op, right).len(),
            hi,
            depth,
        ),
    decreases ce, 1int,
{
    let t = text(codes, ce);
    if !wrapped(codes, ce, op, right) {
        lemma_balanced(codes, ce, chars, start, hi, depth);
    } else {
        let open = seq!['('];
        let close = seq![')'];
        assert(piece(codes, ce, op, right) == (open + t) + close);
        lemma_split(chars, start, open + t, close);
        lemma_split(chars, start, open, t);
        assert(chars[start + 0] == open[0]);
        assert(chars[start + (open + t).len() + 0] == close[0]);
        assert(chars[start] == '(');
        assert(chars[start + 1 + t.len()] == ')');
        lemma_balanced(codes, ce, chars, start + 1, hi, depth + 1);
    }
}

/// The tokens of an operand end with a part.
proof fn lemma_operand_ends_with_part(codes: Seq<u8>, ce: int, op: Op, right: bool, coll: Set<int>)
    requires
        node_ok(codes, ce),
    ensures
        operand(codes, ce, op, right, coll).len() > 0,
        operand(codes, ce, op, right, coll).last() is Part,
{
    lemma_flatc_ends_with_part(codes, ce, coll);
}

/// The conditions under which reading the text of a subtree at `pos` adds
/// its tokens: the text is there, is not followed by a digit, and no
/// operand stands right before it.
pub open spec fn text_at(codes: Seq<u8>, e: int, chars: Seq<char>, pos: int, hi: int, acc: Seq<Lexeme>) -> bool {
    &&& node_ok(codes, e)
    &&& 0 <= pos
    &&& pos + text(codes, e).len() <= hi <= chars.len()
    &&& chars.subrange(pos, pos + text(codes, e).len()) == text(codes, e)
    &&& pos + text(codes, e).len() < hi ==> !('0' <= chars[pos + text(codes, e).len()] <= '9')
    &&& acc.len() == 0 || acc.last() is Op
}

/// Reading the text of a subtree adds its tokens.
proof fn lemma_lex_node(codes: Seq<u8>, e: int, chars: Seq<char>, pos: int, hi: int, acc: Seq<Lexeme>)
    requires
        text_at(codes, e, chars, pos, hi, acc),
    ensures
        lex_from(chars, pos, hi, acc) == lex_from(
            chars,
            pos + text(codes, e).len(),
            hi,
            acc + flatc(codes, e, Set::empty()),
        ),
    decreases e, 2int,
{
    lemma_tree_len_bounds(codes, e);
    if is_op_node(codes, e) {
        if op_of_code(codes[e - 1]).arity() == 1 {
            lemma_lex_unary(codes, e, chars, pos, hi, acc);
        } else {
            lemma_lex_binary(codes, e, chars, pos, hi, acc);
        }
    } else {
        lemma_lex_leaf(codes, e, chars, pos, hi, acc);
    }
}

proof fn lemma_lex_leaf(codes: Seq<u8>, e: int, chars: Seq<char>, pos: int, hi: int, acc: Seq<Lexeme>)
    requires
        text_at(codes, e, chars, pos, hi, acc),
        !is_op_node(codes, e),
    ensures
        lex_from(chars, pos, hi, acc) == lex_from(
            chars,
            pos + text(codes, e).len(),
            hi,
            acc + flatc(codes, e, Set::empty()),
        ),
{
    lemma_text_unfold(codes, e);
    lemma_tree_len_bounds(codes, e);
    let t = text(codes, e);
    lemma_split(chars, pos, t, Seq::empty());
    if codes[e - 1] <= 155 {
        let n = codes[e - 1];
        lemma_decimal_digits(n as nat);
        assert(chars[pos + 0] == t[0]);
        assert forall|i: int| pos <= i < pos + t.len() implies '0' <= #[trigger] chars[i] <= '9' by {
            assert(chars[pos + (i - pos)] == t[i - pos]);
        }
        lemma_digit_run_exact(chars, pos, t.len() as int, hi);
        lemma_digits_value(chars, pos, n as nat);
        assert(subtree(codes, e) =~= seq![n]);
        assert(acc + flatc(codes, e, Set::empty()) =~= acc.push(Lexeme::Part(seq![n])));
    } else {
        let code = codes[e - 1];
        let v = (242 - code) as u8;
        assert(chars[pos + 0] == t[0]);
        assert(chars[pos] == var_char(v));
        assert((242 - ((chars[pos] as u32) - 97)) as u8 == code);
        assert(subtree(codes, e) =~= seq![code]);
        assert(acc + flatc(codes, e, Set::empty()) =~= acc.push(Lexeme::Part(seq![code])));
    }
}

proof fn lemma_lex_unary(codes: Seq<u8>, e: int, chars: Seq<char>, pos: int, hi: int, acc: Seq<Lexeme>)
    requires
        text_at(codes, e, chars, pos, hi, acc),
        is_op_node(codes, e),
        op_of_code(codes[e - 1]).arity() == 1,
    ensures
        lex_from(chars, pos, hi, acc) == lex_from(
            chars,
            pos + text(codes, e).len(),
            hi,
            acc + flatc(codes, e, Set::empty()),
        ),
    decreases e, 1int,
{
    lemma_text_unfold(codes, e);
    lemma_tree_len_bounds(codes, e);
    let t = text(codes, e);
    let none = Set::<int>::empty();
    let op = op_of_code(codes[e - 1]);
    lemma_children(codes, e);
    lemma_face(op);
    lemma_flatc_unfold(codes, e, none);
    let f = face_of(op);
    let pc = piece(codes, e - 1, op, true);
    lemma_split(chars, pos, f, pc);
    assert(chars[pos + 0] == f[0]);
    lemma_digit_run_exact(chars, pos, 0, hi);
    lemma_find_unary(chars, pos, hi, op);
    let acc1 = acc.push(Lexeme::Op(op));
    assert(lex_from(chars, pos, hi, acc) == lex_from(chars, pos + 1, hi, acc1));
    lemma_lex_operand(codes, e - 1, op, true, chars, pos + 1, hi, acc1);
    assert(acc + flatc(codes, e, none) =~= acc1 + operand(codes, e - 1, op, true, none));
}

proof fn lemma_lex_binary(codes: Seq<u8>, e: int, chars: Seq<char>, pos: int, hi: int, acc: Seq<Lexeme>)
    requires
        text_at(codes, e, chars, pos, hi, acc),
        is_op_node(codes, e),
        op_of_code(codes[e - 1]).arity() == 2,
    ensures
        lex_from(chars, pos, hi, acc) == lex_from(
            chars,
            pos + text(codes, e).len(),
            hi,
            acc + flatc(codes, e, Set::empty()),
        ),
    decreases e, 1int,
{
    lemma_text_unfold(codes, e);
    lemma_tree_len_bounds(codes, e);
    let t = text(codes, e);
    let none = Set::<int>::empty();
    let op = op_of_code(codes[e - 1]);
    lemma_children(codes, e);
    lemma_face(op);
    lemma_flatc_unfold(codes, e, none);
    let f = face_of(op);
    let le = left_end(codes, e);
    let pl = piece(codes, le, op, false);
    let pr = piece(codes, e - 1, op, true);
    assert(t == (pl + f) + pr);
    lemma_split(chars, pos, pl + f, pr);
    lemma_split(chars, pos, pl, f);
    assert(chars[pos + pl.len() + 0] == f[0]);
    lemma_lex_operand(codes, le, op, false, chars, pos, hi, acc);
    let acc2 = acc + operand(codes, le, op, false, none);
    lemma_operand_ends_with_part(codes, le, op, false, none);
    let p2 = pos + pl.len();
    lemma_digit_run_exact(chars, p2, 0, hi);
    lemma_find_binary(chars, p2, hi, op);
    let acc3 = acc2.push(Lexeme::Op(op));
    assert(lex_from(chars, p2, hi, acc2) == lex_from(chars, p2 + op.len(), hi, acc3));
    lemma_lex_operand(codes, e - 1, op, true, chars, p2 + f.len(), hi, acc3);
    assert(acc + flatc(codes, e, none) =~= acc3 + operand(codes, e - 1, op, true, none));
}

/// Reading the text of an operand adds its tokens: those of its subtree,
/// or the single part that the parser reads back from inside the
/// parentheses.
proof fn lemma_lex_operand(
    codes: Seq<u8>,
    ce: int,
    op: Op,
    right: bool,
    chars: Seq<char>,
    pos: int,
    hi: int,
    acc: Seq<Lexeme>,
)
    requires
        node_ok(codes, ce),
        0 <= pos,
        pos + piece(codes, ce, op, right).len() <= hi <= chars.len(),
        chars.subrange(pos, pos + piece(codes, ce, op, right).len()) == piece(codes, ce, op, right),
        pos + piece(codes, ce, op, right).len() < hi ==> !('0' <= chars[pos + piece(
            codes,
            ce,
            op,
            right,
        ).len()] <= '9'),
        acc.len() == 0 || acc.last() is Op,
    ensures
        lex_from(chars, pos, hi, acc) == lex_from(
            chars,
            pos + piece(codes, ce, op, right).len(),
            hi,
            acc + operand(codes, ce, op, right, Set::empty()),
        ),
    decreases ce, 5int,
{
    let t = text(codes, ce);
    if !wrapped(codes, ce, op, right) {
        lemma_lex_node(codes, ce, chars, pos, hi, acc);
    } else {
        let open = seq!['('];
        let close = seq![')'];
        assert(piece(codes, ce, op, right) == (open + t) + close);
        lemma_split(chars, pos, open + t, close);
        lemma_split(chars, pos, open, t);
        assert(chars[pos + 0] == open[0]);
        assert(chars[pos + (open + t).len() + 0] == close[0]);
        assert(chars[pos] == '(');
        let f = pos + 1 + t.len();
        lemma_digit_run_exact(chars, pos, 0, hi);
        let after_part = acc.len() > 0 && acc.last() is Part;
        lemma_find_paren(chars, pos, hi, after_part);
        lemma_balanced(codes, ce, chars, pos + 1, hi, 1);
        assert(close_paren(chars, pos + 1, hi, 1) == Some(f));
        lemma_parse_text(codes, ce, chars, pos + 1, f);
        assert(acc + operand(codes, ce, op, right, Set::empty()) =~= acc.push(Lexeme::Part(subtree(codes, ce))));
    }
}

/// Parsing the text of a subtree gives back its bytes.
proof fn lemma_parse_text(codes: Seq<u8>, e: int, chars: Seq<char>, lo: int, hi: int)
    requires
        node_ok(codes, e),
        0 <= lo <= hi <= chars.len(),
        chars.subrange(lo, hi) == text(codes, e),
    ensures
        parse_chars(chars, lo, hi) == Ok::<Seq<u8>, Seq<char>>(subtree(codes, e)),
    decreases e, 3int,
{
    let none = Set::<int>::empty();
    lemma_lex_node(codes, e, chars, lo, hi, Seq::empty());
    assert(Seq::<Lexeme>::empty() + flatc(codes, e, none) =~= flatc(codes, e, none));
    lemma_assemble_flatc(codes, e, none);
}

/// Parsing reads back what rendering writes: the text that `to_string`
/// gives for an expression (one tree whose bytes are all pivots) parses to
/// that very expression, so `to_string` after `parse` gives back any text
/// that `to_string` can write.
pub proof fn lemma_parse_to_string(codes: Seq<u8>)
    requires
        is_tree(codes),
        forall|i: int| 0 <= i < codes.len() ==> is_valid_code(#[trigger] codes[i]),
    ensures
        renderable(codes),
        parse_chars(render_text(codes), 0, render_text(codes).len() as int) == Ok::<Seq<u8>, Seq<char>>(codes),
{
    let n = codes.len() as int;
    assert(pivots_within(codes, 0, n, 13)) by {
        assert forall|i: int| 0 <= i < n implies is_valid_code(#[trigger] codes[i]) && (
        crate::pivot::Pivot::decode(codes[i]) matches crate::pivot::Pivot::VarPivot(v) ==> v < 13) by {
            assert(is_valid_code(codes[i]));
        }
    }
    assert(node_ok(codes, n));
    lemma_node_renders(codes, n);
    let t = render_text(codes);
    assert(t.subrange(0, t.len() as int) =~= t);
    lemma_parse_text(codes, n, t, 0, t.len() as int);
    assert(subtree(codes, n) =~= codes);
}


/// The bytes of an expression without its no-op bytes (255), which stand
/// for the characters of its text that carry no meaning of their own.
pub open spec fn strip_nops(s: Seq<u8>) -> Seq<u8>
    decreases s.len(),
{
    if s.len() == 0 {
        Seq::empty()
    } else if s.last() == 255 {
        strip_nops(s.drop_last())
    } else {
        strip_nops(s.drop_last()).push(s.last())
    }
}

proof fn lemma_strip_concat(a: Seq<u8>, b: Seq<u8>)
    ensures
        strip_nops(a + b) == strip_nops(a) + strip_nops(b),
    decreases b.len(),
{
    if b.len() == 0 {
        assert(a + b =~= a);
        assert(strip_nops(a) + strip_nops(b) =~= strip_nops(a));
    } else {
        assert((a + b).drop_last() =~= a + b.drop_last());
        lemma_strip_concat(a, b.drop_last());
        if b.last() != 255 {
            assert(strip_nops(a) + strip_nops(b) =~= (strip_nops(a) + strip_nops(b.drop_last())).push(b.last()));
        }
    }
}

proof fn lemma_strip_valid(s: Seq<u8>)
    requires
        forall|i: int| 0 <= i < s.len() ==> is_valid_code(#[trigger] s[i]),
    ensures
        forall|i: int| 0 <= i < strip_nops(s).len() ==> is_valid_code(#[trigger] strip_nops(s)[i]) && strip_nops(s)[i] != 255,
    decreases s.len(),
{
    if s.len() > 0 {
        let t = s.drop_last();
        assert(forall|i: int| 0 <= i < t.len() ==> t[i] == s[i]);
        lemma_strip_valid(t);
        assert(is_valid_code(s[s.len() - 1]));
        if s.last() != 255 {
            let st = strip_nops(t);
            assert(strip_nops(s) == st.push(s.last()));
            assert forall|i: int| 0 <= i < strip_nops(s).len() implies is_valid_code(
                #[trigger] strip_nops(s)[i],
            ) && strip_nops(s)[i] != 255 by {
                if i < st.len() {
                    assert(strip_nops(s)[i] == st[i]);
                }
            }
        }
    }
}

/// Bytes that are all no-ops strip to nothing.
proof fn lemma_strip_all_nops(s: Seq<u8>)
    requires
        forall|i: int| 0 <= i < s.len() ==> s[i] == 255u8,
    ensures
        strip_nops(s) == Seq::<u8>::empty(),
    decreases s.len(),
{
    if s.len() > 0 {
        lemma_strip_all_nops(s.drop_last());
    }
}

/// The no-op bytes do nothing when the program runs: the bytes without
/// them compute the same, on every input.
pub proof fn lemma_eval_strip<N: Number>(s: Seq<u8>, inputs: Seq<N>)
    ensures
        eval(strip_nops(s), inputs) == eval(s, inputs),
        apply_spec(strip_nops(s), inputs) == apply_spec(s, inputs),
    decreases s.len(),
{
    if s.len() > 0 {
        lemma_eval_strip(s.drop_last(), inputs);
        if s.last() != 255 {
            assert(strip_nops(s).drop_last() =~= strip_nops(s.drop_last()));
        }
    }
}

/// What follows a subexpression does not change how it renders.
proof fn lemma_render_append(s: Seq<u8>, t: Seq<u8>, end: int)
    requires
        render(s, end) is Some,
    ensures
        render(s + t, end) == render(s, end),
    decreases end,
{
    lemma_render_span(s, end);
    assert((s + t)[end - 1] == s[end - 1]);
    match Pivot::decode(s[end - 1]) {
        Pivot::Nop => lemma_render_append(s, t, end - 1),
        Pivot::OpPivot(op) => {
            lemma_render_append(s, t, end - 1);
            if op.arity() != 1 {
                let rl = render(s, end - 1).unwrap().2;
                lemma_render_span(s, end - 1);
                lemma_render_append(s, t, end - 1 - rl);
            }
        },
        _ => {},
    }
}

/// What precedes a subexpression does not change how it renders.
proof fn lemma_render_prepend(p: Seq<u8>, s: Seq<u8>, end: int)
    requires
        render(s, end) is Some,
    ensures
        render(p + s, p.len() + end) == render(s, end),
    decreases end,
{
    lemma_render_span(s, end);
    assert((p + s)[p.len() + end - 1] == s[end - 1]);
    match Pivot::decode(s[end - 1]) {
        Pivot::Nop => lemma_render_prepend(p, s, end - 1),
        Pivot::OpPivot(op) => {
            lemma_render_prepend(p, s, end - 1);
            if op.arity() != 1 {
                let rl = render(s, end - 1).unwrap().2;
                lemma_render_span(s, end - 1);
                lemma_render_prepend(p, s, end - 1 - rl);
            }
        },
        _ => {},
    }
}

/// A unary operator after a tree that renders makes a tree that renders
/// with the operator in front.
proof fn lemma_render_unary_join(sr: Seq<u8>, op: Op)
    requires
        is_tree(sr),
        render(sr, sr.len() as int) is Some,
        render(sr, sr.len() as int).unwrap().2 == sr.len(),
        op.arity() == 1,
    ensures
        is_tree(sr.push(op.code())),
        render(sr.push(op.code()), sr.len() + 1int) == ({
            let (rt, rp, rl) = render(sr, sr.len() as int).unwrap();
            Some((face_of(op) + parenthesize(rt, rp >= op.prec()), op.prec() as int, sr.len() + 1int))
        }),
{
    let c = op.code();
    crate::parse::lemma_tree_unary(sr, op);
    assert(sr.push(c) =~= sr + seq![c]);
    lemma_render_append(sr, seq![c], sr.len() as int);
    crate::pivot::lemma_decode_encode(Pivot::OpPivot(op));
}

/// A binary operator after two trees that render makes a tree that
/// renders with the operator between them.
proof fn lemma_render_binary_join(sl: Seq<u8>, sr: Seq<u8>, op: Op)
    requires
        is_tree(sl),
        is_tree(sr),
        render(sl, sl.len() as int) is Some,
        render(sl, sl.len() as int).unwrap().2 == sl.len(),
        render(sr, sr.len() as int) is Some,
        render(sr, sr.len() as int).unwrap().2 == sr.len(),
        sr.len() >= 1,
        op.arity() == 2,
    ensures
        is_tree((sl + sr).push(op.code())),
        render((sl + sr).push(op.code()), sl.len() + sr.len() + 1int) == ({
            let (lt, lp, ll) = render(sl, sl.len() as int).unwrap();
            let (rt, rp, rl) = render(sr, sr.len() as int).unwrap();
            Some(
                (
                    parenthesize(lt, lp >= op.prec()) + face_of(op) + parenthesize(rt, rp > op.prec()),
                    op.prec() as int,
                    sl.len() + sr.len() + 1int,
                ),
            )
        }),
{
    let c = op.code();
    let s = (sl + sr).push(c);
    crate::parse::lemma_tree_binary(sl, sr, op);
    crate::pivot::lemma_decode_encode(Pivot::OpPivot(op));
    lemma_render_prepend(sl, sr, sr.len() as int);
    assert(s =~= (sl + sr) + seq![c]);
    lemma_render_append(sl + sr, seq![c], (sl + sr).len() as int);
    assert(s =~= sl + (sr + seq![c]));
    lemma_render_append(sl, sr + seq![c], sl.len() as int);
}

/// The bytes that render a subexpression, without their no-ops, form a
/// tree that renders to the same text.
#[verifier::rlimit(30)]
proof fn lemma_render_strip(codes: Seq<u8>, e: int)
    requires
        render(codes, e) is Some,
        forall|i: int| 0 <= i < codes.len() ==> is_valid_code(#[trigger] codes[i]),
    ensures
        ({
            let (t, p, l) = render(codes, e).unwrap();
            let s = strip_nops(codes.subrange(e - l, e));
            &&& is_tree(s)
            &&& render(s, s.len() as int) == Some((t, p, s.len() as int))
        }),
    decreases e,
{
    lemma_render_span(codes, e);
    let (t, p, l) = render(codes, e).unwrap();
    let c = codes[e - 1];
    let sub = codes.subrange(e - l, e);
    assert(sub.last() == c);
    crate::pivot::lemma_encode_decode(c);
    match Pivot::decode(c) {
        Pivot::Nop => {
            lemma_render_strip(codes, e - 1);
            assert(sub.drop_last() =~= codes.subrange(e - 1 - (l - 1), e - 1));
        },
        Pivot::OpPivot(op) => {
            lemma_render_strip(codes, e - 1);
            lemma_render_span(codes, e - 1);
            let (rt, rp, rl) = render(codes, e - 1).unwrap();
            let sr = strip_nops(codes.subrange(e - 1 - rl, e - 1));
            assert(c == op.code());
            assert(c != 255);
            if op.arity() == 1 {
                assert(sub.drop_last() =~= codes.subrange(e - 1 - rl, e - 1));
                assert(strip_nops(sub) == sr.push(c));
                lemma_render_unary_join(sr, op);
            } else {
                lemma_render_strip(codes, e - 1 - rl);
                lemma_render_span(codes, e - 1 - rl);
                let (lt, lp, ll) = render(codes, e - 1 - rl).unwrap();
                let subl = codes.subrange(e - 1 - rl - ll, e - 1 - rl);
                let subr = codes.subrange(e - 1 - rl, e - 1);
                let sl = strip_nops(subl);
                assert(sub.drop_last() =~= subl + subr);
                lemma_strip_concat(subl, subr);
                assert(strip_nops(sub) == (sl + sr).push(c));
                crate::parse::lemma_tree_len_bounds(sr, sr.len() as int);
                lemma_render_binary_join(sl, sr, op);
            }
        },
        _ => {
            assert(c != 255);
            assert(sub =~= seq![c]);
            assert(sub.drop_last() =~= Seq::<u8>::empty());
            assert(strip_nops(sub.drop_last()) =~= Seq::<u8>::empty());
            assert(strip_nops(sub) =~= seq![c]);
        },
    }
}

/// Parsing reads back what rendering writes, no-op bytes and all: for an
/// expression that renders with nothing but no-ops before what it renders,
/// the text parses to the expression's bytes without their no-ops, which
/// render to the same text and compute the same on every input (see
/// `lemma_eval_strip`).
pub proof fn lemma_parse_to_string_with_nops(codes: Seq<u8>)
    requires
        forall|i: int| 0 <= i < codes.len() ==> is_valid_code(#[trigger] codes[i]),
        renderable(codes),
        forall|i: int|
            0 <= i < codes.len() - render(codes, codes.len() as int).unwrap().2 ==> codes[i]
                == 255u8,
    ensures
        is_tree(strip_nops(codes)),
        render_text(strip_nops(codes)) == render_text(codes),
        parse_chars(render_text(codes), 0, render_text(codes).len() as int) == Ok::<
            Seq<u8>,
            Seq<char>,
        >(strip_nops(codes)),
{
    let n = codes.len() as int;
    lemma_render_span(codes, n);
    let l = render(codes, n).unwrap().2;
    lemma_render_strip(codes, n);
    let pre = codes.subrange(0, n - l);
    let body = codes.subrange(n - l, n);
    assert(codes =~= pre + body);
    lemma_strip_concat(pre, body);
    lemma_strip_all_nops(pre);
    assert(strip_nops(codes) =~= strip_nops(body));
    lemma_strip_valid(codes);
    lemma_parse_to_string(strip_nops(codes));
}

} // verus!
