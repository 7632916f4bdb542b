//! Expressions and their evaluation.
use vstd::prelude::*;
use core::marker::PhantomData;

use crate::number::Number;
use crate::pivot::{Op, Pivot, is_valid_code};

verus! {

/// Represents a syntactically-valid mathematical Rust expression. Can be
/// applied to a set of input values to yield an output value, and rendered
/// as text with [`Expression::to_string`].
///
/// The expression is stored as a postfix program of pivots: applying it runs
/// the program on a stack.
#[derive(Debug)]
pub struct Expression<N: Number, const C: usize> {
    pub(crate) field: Vec<u8>,
    pub(crate) nothing: PhantomData<N>,
}

impl<N: Number, const C: usize> View for Expression<N, C> {
    type V = Seq<u8>;

    /// The bytes of the expression.
    closed spec fn view(&self) -> Seq<u8> {
        self.field@
    }
}

impl<N: Number, const C: usize> Clone for Expression<N, C> {
    fn clone(&self) -> (r: Self)
        ensures
            r@ == self@,
    {
        Expression { field: self.field.clone(), nothing: PhantomData }
    }
}

/// The height of the evaluation stack after running `codes`.
pub open spec fn height_after(codes: Seq<u8>) -> int
    decreases codes.len(),
{
    if codes.len() == 0 {
        0
    } else {
        let h = height_after(codes.drop_last());
        match Pivot::decode(codes.last()) {
            Pivot::Nop => h,
            Pivot::OpPivot(op) => h - op.arity() + 1,
            _ => h + 1,
        }
    }
}

/// Running `code` on a stack of height `height` neither fails to decode,
/// nor pops from an empty stack, nor grows the stack past its 99 slots,
/// nor reads a variable that an expression with `vars` inputs lacks.
pub open spec fn step_ok(height: int, code: u8, vars: nat) -> bool {
    &&& is_valid_code(code)
    &&& match Pivot::decode(code) {
        Pivot::Nop => true,
        Pivot::OpPivot(op) => height >= op.arity(),
        Pivot::ConstPivot(_) => height < 99,
        Pivot::VarPivot(v) => height < 99 && v < vars,
    }
}

/// Every step of the program `codes` is safe to run with `vars` inputs.
pub open spec fn runs_ok(codes: Seq<u8>, vars: nat) -> bool {
    forall|i: int| 0 <= i < codes.len() ==> #[trigger] step_ok(height_after(codes.take(i)), codes[i], vars)
}

/// Every step of the program `codes` is safe to run with `vars` inputs on a
/// stack that already holds `base` values.
pub open spec fn runs_ok_from(codes: Seq<u8>, base: int, vars: nat) -> bool {
    forall|i: int|
        0 <= i < codes.len() ==> #[trigger] step_ok(base + height_after(codes.take(i)), codes[i], vars)
}

/// Running two programs one after the other grows the stack by the sum of
/// what each grows it by.
pub proof fn lemma_height_concat(a: Seq<u8>, b: Seq<u8>)
    ensures
        height_after(a + b) == height_after(a) + height_after(b),
    decreases b.len(),
{
    if b.len() == 0 {
        assert(a + b =~= a);
    } else {
        lemma_height_concat(a, b.drop_last());
        assert((a + b).drop_last() =~= a + b.drop_last());
        assert((a + b).last() == b.last());
    }
}

/// Two programs that each run safely where they start run safely one after
/// the other.
pub proof fn lemma_runs_concat(a: Seq<u8>, b: Seq<u8>, base: int, vars: nat)
    requires
        runs_ok_from(a, base, vars),
        runs_ok_from(b, base + height_after(a), vars),
    ensures
        runs_ok_from(a + b, base, vars),
{
    assert forall|i: int| 0 <= i < (a + b).len() implies #[trigger] step_ok(
        base + height_after((a + b).take(i)),
        (a + b)[i],
        vars,
    ) by {
        if i < a.len() {
            assert((a + b).take(i) =~= a.take(i));
            assert(step_ok(base + height_after(a.take(i)), a[i], vars));
        } else {
            let j = i - a.len();
            assert((a + b).take(i) =~= a + b.take(j));
            lemma_height_concat(a, b.take(j));
            assert(step_ok((base + height_after(a)) + height_after(b.take(j)), b[j], vars));
        }
    }
}

/// A run of no-ops leaves the stack alone and runs anywhere.
pub proof fn lemma_nops_run(k: Seq<u8>, base: int, vars: nat)
    requires
        forall|i: int| 0 <= i < k.len() ==> k[i] == 255u8,
    ensures
        height_after(k) == 0,
        runs_ok_from(k, base, vars),
    decreases k.len(),
{
    if k.len() > 0 {
        lemma_nops_run(k.drop_last(), base, vars);
    }
    assert forall|i: int| 0 <= i < k.len() implies #[trigger] step_ok(
        base + height_after(k.take(i)),
        k[i],
        vars,
    ) by {
        lemma_nops_run(k.take(i), base, vars);
    }
}

/// A program of one byte runs where that byte's step does.
pub proof fn lemma_single_run(c: u8, base: int, vars: nat)
    requires
        step_ok(base, c, vars),
    ensures
        runs_ok_from(seq![c], base, vars),
        height_after(seq![c]) == match Pivot::decode(c) {
            Pivot::Nop => 0int,
            Pivot::OpPivot(op) => 1 - op.arity(),
            _ => 1int,
        },
{
    assert(seq![c].drop_last() =~= Seq::<u8>::empty());
    assert(seq![c].take(0) =~= Seq::<u8>::empty());
    assert(step_ok(base + height_after(seq![c].take(0)), seq![c][0], vars));
}

/// The effect of one step of the program on the stack; `None` when a
/// division or remainder fails.
pub open spec fn step_value<N: Number>(st: Seq<N>, code: u8, inputs: Seq<N>) -> Option<Seq<N>> {
    let n = st.len() as int;
    match Pivot::decode(code) {
        Pivot::Nop => Some(st),
        Pivot::ConstPivot(c) => Some(st.push(N::spec_from_u8(c))),
        Pivot::VarPivot(v) => Some(st.push(inputs[v as int])),
        Pivot::OpPivot(Op::NEG) => Some(st.update(n - 1, N::spec_neg(st[n - 1]))),
        Pivot::OpPivot(Op::NOT) => Some(st.update(n - 1, N::spec_not(st[n - 1]))),
        Pivot::OpPivot(op) => {
            let a = st[n - 2];
            let b = st[n - 1];
            let rest = st.take(n - 2);
            match binary_value(op, a, b) {
                Some(x) => Some(rest.push(x)),
                None => None,
            }
        },
    }
}

/// The value of a binary operator applied to `a` and `b`, or `None` when
/// Rust would panic.
pub open spec fn binary_value<N: Number>(op: Op, a: N, b: N) -> Option<N> {
    match op {
        Op::MUL => Some(N::spec_mul(a, b)),
        Op::DIV => N::spec_div(a, b),
        Op::MOD => N::spec_rem(a, b),
        Op::ADD => Some(N::spec_add(a, b)),
        Op::SUB => Some(N::spec_sub(a, b)),
        Op::LSL => Some(N::spec_shl(a, N::spec_as_u32(b))),
        Op::LSR => Some(N::spec_shr(a, N::spec_as_u32(b))),
        Op::AND => Some(N::spec_and(a, b)),
        Op::XOR => Some(N::spec_xor(a, b)),
        _ => Some(N::spec_or(a, b)),
    }
}

/// The stack after running `codes` on the given inputs, or `None` if a
/// division or remainder failed on the way.
pub open spec fn eval<N: Number>(codes: Seq<u8>, inputs: Seq<N>) -> Option<Seq<N>>
    decreases codes.len(),
{
    if codes.len() == 0 {
        Some(Seq::empty())
    } else {
        match eval(codes.drop_last(), inputs) {
            None => None,
            Some(st) => step_value(st, codes.last(), inputs),
        }
    }
}

/// The result of applying the expression `codes` to `inputs`: the bottom of
/// the final stack (zero for an empty program), or `None`.
pub open spec fn apply_spec<N: Number>(codes: Seq<u8>, inputs: Seq<N>) -> Option<N> {
    match eval(codes, inputs) {
        None => None,
        Some(st) => Some(
            if st.len() > 0 {
                st[0]
            } else {
                N::spec_from_u8(0)
            },
        ),
    }
}

proof fn lemma_take_step(codes: Seq<u8>, i: int)
    requires
        0 <= i < codes.len(),
    ensures
        codes.take(i + 1).drop_last() == codes.take(i),
        codes.take(i + 1).last() == codes[i],
{
    assert(codes.take(i + 1).drop_last() =~= codes.take(i));
}

/// What an expression of two variables and an operator computes: `a*b` is
/// the number type's product of the inputs, `a/b` its checked quotient, and
/// so on for every operator; `!a` and `-a` apply the unary operators, a
/// variable is its input and a constant its number. With the laws on each
/// number type (`lemma_i64_arithmetic` and the like), this says what
/// applying an expression gives.
pub proof fn lemma_apply_operators<N: Number>(x: N, y: N, c: u8)
    ensures
        apply_spec(seq![242u8, 241u8, 253u8], seq![x, y]) == Some(N::spec_mul(x, y)),
        apply_spec(seq![242u8, 241u8, 252u8], seq![x, y]) == N::spec_div(x, y),
        apply_spec(seq![242u8, 241u8, 251u8], seq![x, y]) == N::spec_rem(x, y),
        apply_spec(seq![242u8, 241u8, 250u8], seq![x, y]) == Some(N::spec_add(x, y)),
        apply_spec(seq![242u8, 241u8, 249u8], seq![x, y]) == Some(N::spec_sub(x, y)),
        apply_spec(seq![242u8, 241u8, 248u8], seq![x, y]) == Some(N::spec_shl(x, N::spec_as_u32(y))),
        apply_spec(seq![242u8, 241u8, 247u8], seq![x, y]) == Some(N::spec_shr(x, N::spec_as_u32(y))),
        apply_spec(seq![242u8, 241u8, 246u8], seq![x, y]) == Some(N::spec_and(x, y)),
        apply_spec(seq![242u8, 241u8, 245u8], seq![x, y]) == Some(N::spec_xor(x, y)),
        apply_spec(seq![242u8, 241u8, 244u8], seq![x, y]) == Some(N::spec_or(x, y)),
        apply_spec(seq![242u8, 254u8], seq![x, y]) == Some(N::spec_not(x)),
        apply_spec(seq![242u8, 243u8], seq![x, y]) == Some(N::spec_neg(x)),
        apply_spec(seq![241u8], seq![x, y]) == Some(y),
        c <= 155 ==> apply_spec(seq![c], seq![x, y]) == Some(N::spec_from_u8(c)),
{
    lemma_apply_three(seq![242u8, 241u8, 253u8], seq![x, y]);
    lemma_apply_three(seq![242u8, 241u8, 252u8], seq![x, y]);
    lemma_apply_three(seq![242u8, 241u8, 251u8], seq![x, y]);
    lemma_apply_three(seq![242u8, 241u8, 250u8], seq![x, y]);
    lemma_apply_three(seq![242u8, 241u8, 249u8], seq![x, y]);
    lemma_apply_three(seq![242u8, 241u8, 248u8], seq![x, y]);
    lemma_apply_three(seq![242u8, 241u8, 247u8], seq![x, y]);
    lemma_apply_three(seq![242u8, 241u8, 246u8], seq![x, y]);
    lemma_apply_three(seq![242u8, 241u8, 245u8], seq![x, y]);
    lemma_apply_three(seq![242u8, 241u8, 244u8], seq![x, y]);
    let inputs = seq![x, y];
    let not_a = seq![242u8, 254u8];
    let neg_a = seq![242u8, 243u8];
    assert(not_a.drop_last() =~= seq![242u8]);
    assert(neg_a.drop_last() =~= seq![242u8]);
    assert(seq![242u8].drop_last() =~= Seq::<u8>::empty());
    assert(seq![241u8].drop_last() =~= Seq::<u8>::empty());
    assert(seq![c].drop_last() =~= Seq::<u8>::empty());
    assert(eval(Seq::<u8>::empty(), inputs) == Some(Seq::<N>::empty()));
    assert(Pivot::decode(242u8) == Pivot::VarPivot(0));
    assert(Pivot::decode(241u8) == Pivot::VarPivot(1));
    assert(Seq::<N>::empty().push(x) =~= seq![x]);
    assert(Seq::<N>::empty().push(y) =~= seq![y]);
    assert(seq![x].push(y) =~= seq![x, y]);
    assert(eval(seq![242u8], inputs) == Some(seq![x]));
    assert(eval(not_a, inputs) == Some(seq![x].update(0, N::spec_not(x))));
    assert(eval(neg_a, inputs) == Some(seq![x].update(0, N::spec_neg(x))));
    assert(seq![x].update(0, N::spec_not(x)) =~= seq![N::spec_not(x)]);
    assert(seq![x].update(0, N::spec_neg(x)) =~= seq![N::spec_neg(x)]);
    assert(eval(seq![241u8], inputs) == Some(seq![y]));
    if c <= 155 {
        assert(eval(seq![c], inputs) == Some(Seq::<N>::empty().push(N::spec_from_u8(c))));
    }
}

/// Running `a b op` on two inputs pushes them and applies the operator.
proof fn lemma_apply_three<N: Number>(codes: Seq<u8>, inputs: Seq<N>)
    requires
        codes.len() == 3,
        codes[0] == 242,
        codes[1] == 241,
        244 <= codes[2] <= 253,
        inputs.len() == 2,
    ensures
        apply_spec(codes, inputs) == binary_value(
            crate::pivot::op_of_code(codes[2]),
            inputs[0],
            inputs[1],
        ),
{
    let x = inputs[0];
    let y = inputs[1];
    let ab = codes.drop_last();
    assert(ab =~= seq![242u8, 241u8]);
    assert(ab.drop_last() =~= seq![242u8]);
    assert(seq![242u8].drop_last() =~= Seq::<u8>::empty());
    assert(eval(Seq::<u8>::empty(), inputs) == Some(Seq::<N>::empty()));
    assert(Pivot::decode(242u8) == Pivot::VarPivot(0));
    assert(Pivot::decode(241u8) == Pivot::VarPivot(1));
    assert(Seq::<N>::empty().push(x) =~= seq![x]);
    assert(Seq::<N>::empty().push(y) =~= seq![y]);
    assert(seq![x].push(y) =~= seq![x, y]);
    assert(eval(seq![242u8], inputs) == Some(seq![x]));
    assert(eval(ab, inputs) == Some(seq![x, y]));
    assert(seq![x, y].take(0) =~= Seq::<N>::empty());
    let op = crate::pivot::op_of_code(codes[2]);
    match binary_value(op, x, y) {
        Some(v) => {
            assert(Seq::<N>::empty().push(v) =~= seq![v]);
        },
        None => {},
    }
}

/// How many bytes of `codes` are the variable `v` (one of the 26 letters).
pub open spec fn var_appearances(codes: Seq<u8>, v: u8) -> nat
    decreases codes.len(),
{
    if codes.len() == 0 {
        0
    } else {
        var_appearances(codes.drop_last(), v) + if v <= 25 && codes.last() == 242 - v {
            1nat
        } else {
            0nat
        }
    }
}

impl<N: Number, const C: usize> Expression<N, C> {
    /// How many times the variable `variable_id` (0 for `a`) appears.
    pub fn count_variable_appearances(&self, variable_id: u8) -> (r: usize)
        ensures
            r == var_appearances(self@, variable_id),
    {
        let n = self.field.len();
        let ghost codes = self.field@;
        let mut count: usize = 0;
        let mut i: usize = 0;
        assert(codes.take(0) =~= Seq::<u8>::empty());
        while i < n
            invariant
                n == codes.len(),
                codes == self.field@,
                0 <= i <= n,
                count <= i,
                count == var_appearances(codes.take(i as int), variable_id),
            decreases n - i,
        {
            proof {
                lemma_take_step(codes, i as int);
            }
            if variable_id <= 25 && self.field[i] == 242 - variable_id {
                count = count + 1;
            }
            i = i + 1;
        }
        assert(codes.take(n as int) =~= codes);
        count
    }

    /// Make an expression out of its bytes.
    pub fn from_field(field: Vec<u8>) -> (r: Self)
        ensures
            r@ == field@,
    {
        Expression { field, nothing: PhantomData }
    }

    /// The bytes of the expression.
    pub fn field(&self) -> (r: &Vec<u8>)
        ensures
            r@ == self@,
    {
        &self.field
    }

    /// Apply this expression to an array of input values. Returns `None` if
    /// applying the expression to the given values would result in a runtime
    /// exception (dividing by zero, or dividing the minimum of a signed type
    /// by -1).
    ///
    /// The first value in the array is assigned to the variable `a`, the
    /// second to `b`, and so on.
    pub fn apply(&self, inputs: &[N; C]) -> (r: Option<N>)
        requires
            runs_ok(self@, C as nat),
        ensures
            r == apply_spec(self@, inputs@),
    {
        let mut stack: Vec<N> = Vec::new();
        let n = self.field.len();
        let ghost codes = self.field@;
        let mut i: usize = 0;
        assert(codes.take(0) =~= Seq::<u8>::empty());
        while i < n
            invariant
                n == codes.len(),
                codes == self.field@,
                0 <= i <= n,
                runs_ok(codes, C as nat),
                inputs@.len() == C,
                eval(codes.take(i as int), inputs@) == Some(stack@),
                stack@.len() == height_after(codes.take(i as int)),
            decreases n - i,
        {
            let code = self.field[i];
            proof {
                lemma_take_step(codes, i as int);
                assert(step_ok(height_after(codes.take(i as int)), codes[i as int], C as nat));
            }
            let len = stack.len();
            match Pivot::decode(code) {
                Pivot::Nop => {},
                Pivot::ConstPivot(c) => {
                    stack.push(N::from_u8(c));
                },
                Pivot::VarPivot(v) => {
                    stack.push(inputs[v as usize]);
                },
                Pivot::OpPivot(Op::NEG) => {
                    let x = stack[len - 1].op_neg();
                    stack.set(len - 1, x);
                },
                Pivot::OpPivot(Op::NOT) => {
                    let x = stack[len - 1].op_not();
                    stack.set(len - 1, x);
                },
                Pivot::OpPivot(op) => {
                    let b = stack.pop().unwrap();
                    let a = stack.pop().unwrap();
                    let x = match op {
                        Op::MUL => a.op_mul(b),
                        Op::DIV => {
                            match a.op_div(b) {
                                Some(q) => q,
                                None => {
                                    proof {
                                        assert(eval(codes.take(i + 1), inputs@) is None);
                                        lemma_eval_none_extends(codes, inputs@, i as int + 1);
                                        assert(codes.take(n as int) =~= codes);
                                    }
                                    return None;
                                },
                            }
                        },
                        Op::MOD => {
                            match a.op_rem(b) {
                                Some(q) => q,
                                None => {
                                    proof {
                                        assert(eval(codes.take(i + 1), inputs@) is None);
                                        lemma_eval_none_extends(codes, inputs@, i as int + 1);
                                        assert(codes.take(n as int) =~= codes);
                                    }
                                    return None;
                                },
                            }
                        },
                        Op::ADD => a.op_add(b),
                        Op::SUB => a.op_sub(b),
                        Op::LSL => a.op_shl(b.as_u32()),
                        Op::LSR => a.op_shr(b.as_u32()),
                        Op::AND => a.op_and(b),
                        Op::XOR => a.op_xor(b),
                        _ => a.op_or(b),
                    };
                    stack.push(x);
                    proof {
                        let st = eval(codes.take(i as int), inputs@).unwrap();
                        assert(stack@ =~= st.take(st.len() - 2).push(x));
                    }
                },
            }
            i = i + 1;
        }
        proof {
            assert(codes.take(n as int) =~= codes);
        }
        if stack.len() > 0 {
            Some(stack[0])
        } else {
            Some(N::from_u8(0))
        }
    }
}

/// Once evaluation fails on a prefix, it fails on every longer prefix.
proof fn lemma_eval_none_extends<N: Number>(codes: Seq<u8>, inputs: Seq<N>, i: int)
    requires
        0 <= i <= codes.len(),
        eval(codes.take(i), inputs) is None,
    ensures
        eval(codes.take(codes.len() as int), inputs) is None,
    decreases codes.len() - i,
{
    if i < codes.len() {
        lemma_take_step(codes, i);
        lemma_eval_none_extends(codes, inputs, i + 1);
    }
}

} // verus!
