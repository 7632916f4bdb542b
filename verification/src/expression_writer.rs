//! The enumeration of all expressions of a given length.
//!
//! A writer of length `n` writes, one after another, the bytes of the
//! expressions whose text is `n` characters long into the first `n` bytes of
//! its destination. Because the bytes are read as a postfix program, the
//! "left" subexpression of a binary operator comes before the "right" one,
//! and the operator last: `a/2` is stored as `a 2 /`. Every character of the
//! text that is no pivot of its own (a parenthesis, the second `<` of `<<`)
//! is a no-op byte, so the expression takes as many bytes as characters.
use vstd::prelude::*;

use crate::expression::{
    height_after, lemma_height_concat, lemma_nops_run, lemma_runs_concat, lemma_single_run,
    runs_ok, runs_ok_from, step_ok,
};
use crate::pivot::{Op, Pivot, face_of, lemma_decode_encode};
use crate::render::{atom_prec, parenthesize, render, render_text, renderable};
use crate::text::{decimal, lemma_decimal_len};
use crate::writers::WriterType;
use crate::parse::parse_chars;
use crate::pivot::{is_valid_code, op_of_code};
use crate::roundtrip::{lemma_parse_to_string_with_nops, strip_nops};

verus! {

enum EWState {
    Dummy,
    Init,
    Variable { next: u8, max: u8 },
    Constant { next: u8, max: u8 },
    PrepareOp { op: Op },
    OpState { op: Op, left: Box<ExpressionWriter>, right: Box<ExpressionWriter> },
}

/// Writes every expression of a given length over a given number of input
/// variables, each of which must appear, with constants below a cap.
pub struct ExpressionWriter {
    input_count: u8,
    required_vars: u64,
    length: usize,
    min_prec: usize,
    constant_cap: u8,
    op_requirement: Option<Option<Op>>,
    state: EWState,
    vum_of_last_write: u64,
}

/// The position of an operator counted from the end of the enumeration
/// order: `ORR` is 0, `NEG` is 11.
pub open spec fn ops_after(op: Op) -> nat {
    match op {
        Op::NEG => 11,
        Op::NOT => 10,
        Op::MUL => 9,
        Op::DIV => 8,
        Op::MOD => 7,
        Op::ADD => 6,
        Op::SUB => 5,
        Op::LSL => 4,
        Op::LSR => 3,
        Op::AND => 2,
        Op::XOR => 1,
        Op::ORR => 0,
    }
}

/// The number of characters of `op` beside its operands: its symbol, and
/// parentheses when it binds looser than its place requires.
pub open spec fn wasted(op: Op, min_prec: usize) -> int {
    op.len() + if op.prec() < min_prec { 2int } else { 0int }
}

/// A bound on the rank of any writer of length `n`.
pub open spec fn bound(n: nat) -> nat
    decreases n, 1nat,
{
    24 * block(n) + 1001
}

/// The span of ranks given to the states of one operator.
pub open spec fn block(n: nat) -> nat
    decreases n, 0nat,
{
    if n == 0 {
        1
    } else {
        let b = bound((n - 1) as nat);
        (n + 1) * (b * b) + 1
    }
}

/// The number of ones in the binary representation of `x`.
pub open spec fn popcount(x: nat) -> nat
    decreases x,
{
    if x == 0 {
        0
    } else {
        (x % 2) + popcount(x / 2)
    }
}

/// The constants of `len` digits run below this value: the cap, but at
/// most 10, 100 or 156.
pub open spec fn cap_below(cap: u8, len: usize) -> u8 {
    let top: u8 = if len == 1 { 10 } else if len == 2 { 100 } else { 156 };
    if cap < top { cap } else { top }
}

/// Two to the power `k`.
pub open spec fn exp2(k: nat) -> nat
    decreases k,
{
    if k == 0 {
        1
    } else {
        2 * exp2((k - 1) as nat)
    }
}

impl ExpressionWriter {
    /// The length of the expressions written.
    pub closed spec fn len_spec(&self) -> usize {
        self.length
    }

    /// The number of input variables.
    pub closed spec fn input_count_spec(&self) -> u8 {
        self.input_count
    }

    /// The cap on the constants written.
    pub closed spec fn constant_cap_spec(&self) -> u8 {
        self.constant_cap
    }

    /// The requirement on the top-level operator: none, an atom
    /// (`Some(None)`) or the given operator.
    pub closed spec fn op_requirement_spec(&self) -> Option<Option<Op>> {
        self.op_requirement
    }

    /// The writer stands at the top of an expression, where no operator
    /// needs parentheses.
    pub closed spec fn is_top(&self) -> bool {
        self.min_prec == 0
    }

    /// Every input variable must appear in what the writer writes.
    pub closed spec fn requires_all_vars(&self) -> bool {
        self.required_vars + 1 == 1u64 << (self.input_count as u64)
    }

    /// The writer stands where its requirement on the top-level operator
    /// lets it: at that operator, or among the atoms.
    pub closed spec fn follows_requirement(&self) -> bool {
        match self.op_requirement {
            Some(Some(op)) => match self.state {
                EWState::Init => true,
                EWState::PrepareOp { op: o } => o == op,
                EWState::OpState { op: o, .. } => o == op,
                _ => false,
            },
            Some(None) => self.state is Init || self.state is Variable || self.state is Constant,
            None => true,
        }
    }

    /// The next write is owed: the writer stands at a variable or a
    /// constant it has not written yet, or at an operator whose operands
    /// are both under way and whose right operand's next write is owed.
    pub closed spec fn live(&self) -> bool
        decreases self,
    {
        match self.state {
            EWState::Variable { next, max } => next <= max,
            EWState::Constant { next, max } => next < max,
            EWState::OpState { left, right, .. } => !(left.state is Init) && right.live(),
            _ => false,
        }
    }

    /// The writer has nothing to write and never will: it is the empty
    /// operand of a unary operator, or it is fresh and its length cannot
    /// hold what it must write.
    pub closed spec fn barren(&self) -> bool {
        self.state is Dummy || (self.state is Init && self.first_state_spec() is None)
    }

    /// The writer has written nothing yet.
    pub closed spec fn is_fresh(&self) -> bool {
        self.state is Init
    }

    /// A measure that every step of the writer decreases.
    pub closed spec fn rank(&self) -> nat
        decreases self,
    {
        let s = block(self.length as nat);
        match self.state {
            EWState::Dummy => 0,
            EWState::Init => 24 * s + 1000,
            EWState::Variable { next, max } => (24 * s + 300 + (256 - next)) as nat,
            EWState::Constant { next, max } => (24 * s + (256 - next)) as nat,
            EWState::PrepareOp { op } => ops_after(op) * (2 * s) + s,
            EWState::OpState { op, left, right } => {
                let b = bound((self.length - 1) as nat);
                ops_after(op) * (2 * s) + (right.length as nat) * (b * b) + left.rank() * b
                    + right.rank()
            },
        }
    }

    /// The writer's fields are consistent with each other.
    pub closed spec fn wf(&self) -> bool
        decreases self,
    {
        match self.state {
            EWState::Dummy => self.length == 0 && self.vum_of_last_write == 0 && self.required_vars
                == 0,
            _ => {
                &&& 1 <= self.input_count <= 63
                &&& 1 <= self.length < usize::MAX
                &&& self.required_vars >> (self.input_count as u64) == 0
                &&& self.min_prec <= 6
                &&& match self.state {
                    EWState::Variable { next, max } => {
                        &&& max < self.input_count
                        &&& next <= max + 1
                        &&& self.length == 1
                        &&& self.required_vars == 0 ==> max == self.input_count - 1
                        &&& self.required_vars == 0 || (self.required_vars == 1u64 << (max as u64)
                            && next >= max)
                    },
                    EWState::Constant { next, max } => {
                        &&& self.required_vars == 0
                        &&& max <= 156
                        &&& max <= self.constant_cap
                        &&& max == cap_below(self.constant_cap, self.length)
                        &&& next <= 156
                        &&& self.length <= 3
                        &&& self.length == 1 ==> max <= 10
                        &&& self.length == 2 ==> 10 <= next && max <= 100
                        &&& self.length == 3 ==> 100 <= next
                    },
                    EWState::PrepareOp { op } => op != Op::NEG || self.op_requirement == Some(
                        Some(Op::NEG),
                    ),
                    EWState::OpState { op, left, right } => {
                        &&& op != Op::NEG || self.op_requirement == Some(Some(Op::NEG))
                        &&& left.wf()
                        &&& right.wf()
                        &&& !(right.state is Dummy)
                        &&& right.input_count == self.input_count
                        &&& right.constant_cap == self.constant_cap
                        &&& right.op_requirement is None
                        &&& left.state is Init ==> right.state is Init
                        &&& if op.arity() == 1 {
                            &&& left.state is Dummy
                            &&& left.length == 0
                            &&& left.input_count == 0
                            &&& left.min_prec == 0
                            &&& left.constant_cap == self.constant_cap
                            &&& left.op_requirement is None
                            &&& right.required_vars == self.required_vars
                            &&& right.length == self.length - wasted(op, self.min_prec)
                            &&& right.min_prec == op.prec()
                        } else {
                            &&& !(left.state is Dummy)
                            &&& left.length >= 1
                            &&& left.input_count == self.input_count
                            &&& left.constant_cap == self.constant_cap
                            &&& left.op_requirement is None
                            &&& left.required_vars == 0
                            &&& left.length + right.length + wasted(op, self.min_prec)
                                == self.length
                            &&& left.min_prec == op.prec()
                            &&& right.min_prec == op.prec() + 1
                        }
                    },
                    _ => true,
                }
            },
        }
    }

    /// The fields that writing leaves unchanged.
    pub closed spec fn same_shape(&self, other: &ExpressionWriter) -> bool {
        &&& self.input_count == other.input_count
        &&& self.length == other.length
        &&& self.min_prec == other.min_prec
        &&& self.constant_cap == other.constant_cap
        &&& self.op_requirement == other.op_requirement
        &&& self.required_vars == other.required_vars
    }

    /// What the writer needs of the bytes `d[lo..hi]` before it writes: the
    /// bytes that its next write does not rewrite hold what it wrote last.
    pub closed spec fn pre(&self, d: Seq<u8>, lo: int, hi: int) -> bool
        decreases self,
    {
        match self.state {
            EWState::Dummy => forall|i: int| lo <= i < hi ==> d[i] == 255u8,
            EWState::Init => true,
            EWState::PrepareOp { .. } => true,
            EWState::Variable { .. } => forall|i: int|
                lo <= i < hi && i != lo + self.length - 1 ==> d[i] == 255u8,
            EWState::Constant { .. } => forall|i: int|
                lo <= i < hi && i != lo + self.length - 1 ==> d[i] == 255u8,
            EWState::OpState { op, left, right } => {
                let end = lo + self.length - 1;
                let mid = end - right.length;
                &&& d[end] == op.code()
                &&& forall|i: int| end < i < hi ==> d[i] == 255u8
                &&& left.state is Init || (left.written(d, lo, mid) && (op.arity() == 2
                    ==> right.required_vars == self.required_vars & !left.vum_of_last_write))
                &&& right.pre(d, mid, end)
            },
        }
    }

    /// The bytes `d[lo..hi]` hold the expression the writer wrote last,
    /// with no-ops around its pivots.
    pub closed spec fn written(&self, d: Seq<u8>, lo: int, hi: int) -> bool
        decreases self,
    {
        match self.state {
            EWState::Dummy => forall|i: int| lo <= i < hi ==> d[i] == 255u8,
            EWState::Init => false,
            EWState::PrepareOp { .. } => false,
            EWState::Variable { next, max } => {
                &&& next >= 1
                &&& self.required_vars != 0 ==> next == max + 1
                &&& self.vum_of_last_write == 1u64 << ((next - 1) as u64)
                &&& d[lo + self.length - 1] == 242 - (next - 1)
                &&& forall|i: int| lo <= i < hi && i != lo + self.length - 1 ==> d[i] == 255u8
            },
            EWState::Constant { next, max } => {
                &&& next >= 1
                &&& next <= max
                &&& self.vum_of_last_write == 0
                &&& self.length == 2 ==> next >= 11
                &&& self.length == 3 ==> next >= 101
                &&& d[lo + self.length - 1] == next - 1
                &&& forall|i: int| lo <= i < hi && i != lo + self.length - 1 ==> d[i] == 255u8
            },
            EWState::OpState { op, left, right } => {
                let end = lo + self.length - 1;
                let mid = end - right.length;
                &&& d[end] == op.code()
                &&& forall|i: int| end < i < hi ==> d[i] == 255u8
                &&& left.written(d, lo, mid)
                &&& right.written(d, mid, end)
                &&& self.vum_of_last_write == left.vum_of_last_write | right.vum_of_last_write
                &&& op.arity() == 2 ==> right.required_vars == self.required_vars
                    & !left.vum_of_last_write
            },
        }
    }
}

impl ExpressionWriter {
    /// The writer holds an expression: the state it is in right after a
    /// write, whatever the bytes.
    spec fn holds(&self) -> bool
        decreases self,
    {
        match self.state {
            EWState::Dummy => true,
            EWState::Variable { next, max } => {
                &&& next >= 1
                &&& self.required_vars != 0 ==> next == max + 1
                &&& self.vum_of_last_write == 1u64 << ((next - 1) as u64)
            },
            EWState::Constant { next, max } => {
                &&& next >= 1
                &&& next <= max
                &&& self.vum_of_last_write == 0
                &&& self.length == 2 ==> next >= 11
                &&& self.length == 3 ==> next >= 101
            },
            EWState::OpState { op, left, right } => {
                &&& left.holds()
                &&& right.holds()
                &&& self.vum_of_last_write == left.vum_of_last_write | right.vum_of_last_write
                &&& op.arity() == 2 ==> right.required_vars == self.required_vars
                    & !left.vum_of_last_write
            },
            _ => false,
        }
    }

    /// `w` is a state of a writer of this shape that holds an expression
    /// the writer may write.
    spec fn candidate(&self, w: ExpressionWriter) -> bool {
        &&& w.wf()
        &&& w.same_shape(self)
        &&& w.follows_requirement()
        &&& w.holds()
    }

    /// No such state has a rank in `[lo, hi)`.
    spec fn none_in(&self, lo: int, hi: int) -> bool {
        forall|w: ExpressionWriter| #[trigger] self.candidate(w) ==> !(lo <= w.rank() < hi)
    }

    /// The rank of a fresh writer of this length.
    spec fn top_rank(&self) -> nat {
        24 * block(self.length as nat) + 1000
    }
}

/// The number of ones in the binary representation of `x`.
fn count_ones(x: u64) -> (r: u32)
    ensures
        r == popcount(x as nat),
        r <= 64,
{
    proof {
        reveal_with_fuel(exp2, 65);
        assert(exp2(64) == 0x1_0000_0000_0000_0000);
        lemma_popcount_bits(x as nat, 64);
    }
    let mut y = x;
    let mut c: u32 = 0;
    while y > 0
        invariant
            c + popcount(y as nat) == popcount(x as nat),
            popcount(x as nat) <= 64,
        decreases y,
    {
        c = c + (y % 2) as u32;
        y = y / 2;
    }
    c
}

proof fn lemma_popcount_bits(x: nat, k: nat)
    requires
        x < exp2(k),
    ensures
        popcount(x) <= k,
    decreases k,
{
    if k > 0 {
        lemma_popcount_bits(x / 2, (k - 1) as nat);
    }
}

/// Whether bit `v` of `x` is set.
pub open spec fn bit(x: u64, v: u64) -> bool {
    (x >> v) & 1u64 == 1u64
}

/// Some byte of `d[lo..hi]` is variable `v`.
pub open spec fn uses_var(d: Seq<u8>, lo: int, hi: int, v: u64) -> bool {
    exists|i: int| lo <= i < hi && d[i] == 242 - v
}

proof fn lemma_popcount_zero(x: nat)
    ensures
        popcount(x) == 0 <==> x == 0,
    decreases x,
{
    if x > 0 {
        lemma_popcount_zero(x / 2);
    }
}

/// Halving an even number keeps its ones; halving an odd one drops one.
proof fn lemma_popcount_half(x: u64)
    ensures
        popcount(x as nat) == popcount((x >> 1u64) as nat) + ((x & 1u64) as nat),
{
    assert((x >> 1u64) == x / 2) by (bit_vector);
    assert((x & 1u64) == x % 2) by (bit_vector);
}

/// A word with at most one one and a one at bit `t` is the single bit `t`.
proof fn lemma_single_bit(x: u64, t: u64)
    requires
        popcount(x as nat) <= 1,
        t < 64,
        (x >> t) & 1u64 == 1u64,
    ensures
        x == 1u64 << t,
    decreases t,
{
    if t == 0 {
        lemma_popcount_half(x);
        assert((x & 1u64) == 1u64) by (bit_vector)
            requires
                (x >> 0u64) & 1u64 == 1u64,
        ;
        lemma_popcount_zero((x >> 1u64) as nat);
        assert(x == 1u64 << 0u64) by (bit_vector)
            requires
                (x >> 1u64) == 0u64,
                (x & 1u64) == 1u64,
        ;
    } else {
        let y = x >> 1u64;
        let u = (t - 1) as u64;
        lemma_popcount_half(x);
        assert((y >> u) & 1u64 == 1u64) by (bit_vector)
            requires
                y == x >> 1u64,
                (x >> t) & 1u64 == 1u64,
                0 < t < 64,
                u + 1 == t,
        ;
        lemma_single_bit(y, u);
        assert(popcount(y as nat) >= 1) by {
            lemma_popcount_zero(y as nat);
            assert(y != 0u64) by (bit_vector)
                requires
                    y == 1u64 << u,
                    u < 63,
            ;
        }
        assert(x & 1u64 == 0u64);
        assert(x == 1u64 << t) by (bit_vector)
            requires
                x >> 1u64 == 1u64 << u,
                x & 1u64 == 0u64,
                0 < t < 64,
                u + 1 == t,
        ;
    }
}

/// Fill `dest[lo..hi]` with no-ops.
fn fill_nops(dest: &mut [u8], lo: usize, hi: usize)
    requires
        lo <= hi <= old(dest)@.len(),
    ensures
        final(dest)@.len() == old(dest)@.len(),
        forall|i: int| lo <= i < hi ==> final(dest)@[i] == 255u8,
        forall|i: int|
            0 <= i < old(dest)@.len() && !(lo <= i < hi) ==> final(dest)@[i] == old(dest)@[i],
{
    let mut i = lo;
    while i < hi
        invariant
            lo <= i <= hi <= dest@.len(),
            dest@.len() == old(dest)@.len(),
            forall|j: int| lo <= j < i ==> dest@[j] == 255u8,
            forall|j: int|
                0 <= j < old(dest)@.len() && !(lo <= j < i) ==> dest@[j] == old(dest)@[j],
        decreases hi - i,
    {
        dest[i] = 255;
        i = i + 1;
    }
}

proof fn lemma_bound_mono(n: nat, m: nat)
    requires
        n <= m,
    ensures
        bound(n) <= bound(m),
        block(n) <= block(m),
        block(n) >= 1,
    decreases m,
{
    if n < m {
        lemma_bound_mono(n, (m - 1) as nat);
        let b = bound((m - 1) as nat);
        assert(b >= 1);
        assert(b * b >= b) by (nonlinear_arith)
            requires
                b >= 1,
        ;
        assert((m + 1) * (b * b) >= b * b) by (nonlinear_arith)
            requires
                b * b >= 1,
        ;
        assert(block(m) > b);
    }
    if m > 0 {
        let b = bound((m - 1) as nat);
        assert((m + 1) * (b * b) >= 0) by (nonlinear_arith);
    }
}

/// `l * b + r` decreases when `l` does and `r` stays below `b`.
proof fn lemma_lex_step(l1: nat, r1: nat, l0: nat, r0: nat, b: nat)
    requires
        l1 < l0,
        r1 < b,
    ensures
        l1 * b + r1 < l0 * b + r0,
{
    assert(l1 * b + b <= l0 * b) by (nonlinear_arith)
        requires
            l1 < l0,
    ;
}

/// The part of an operator state's rank below the operator's own.
proof fn lemma_bracket(rl: nat, lr: nat, rr: nat, b: nat, n: nat)
    requires
        1 <= n,
        rl <= n - 1,
        lr < b,
        rr < b,
    ensures
        rl * (b * b) + lr * b + rr < n * (b * b),
{
    assert(lr * b + rr < b * b) by (nonlinear_arith)
        requires
            lr < b,
            rr < b,
    ;
    assert(rl * (b * b) + b * b <= n * (b * b)) by (nonlinear_arith)
        requires
            rl + 1 <= n,
    ;
}

impl ExpressionWriter {
    /// The rank of a well-formed writer is below the bound of its length.
    proof fn lemma_rank_bound(&self)
        requires
            self.wf(),
        ensures
            self.rank() < bound(self.length as nat),
        decreases self,
    {
        let n = self.length as nat;
        let s = block(n);
        lemma_bound_mono(n, n);
        match self.state {
            EWState::Dummy => {},
            EWState::Init => {},
            EWState::Variable { .. } => {},
            EWState::Constant { .. } => {},
            EWState::PrepareOp { op } => {
                assert(ops_after(op) * (2 * s) <= 22 * s) by (nonlinear_arith)
                    requires
                        ops_after(op) <= 11,
                ;
            },
            EWState::OpState { op, left, right } => {
                let b = bound((n - 1) as nat);
                left.lemma_rank_bound();
                right.lemma_rank_bound();
                lemma_bound_mono(left.length as nat, (n - 1) as nat);
                lemma_bound_mono(right.length as nat, (n - 1) as nat);
                lemma_bracket(right.length as nat, left.rank(), right.rank(), b, n);
                assert(s == (n + 1) * (b * b) + 1);
                assert(n * (b * b) <= s) by (nonlinear_arith)
                    requires
                        s == (n + 1) * (b * b) + 1,
                ;
                assert(ops_after(op) * (2 * s) <= 22 * s) by (nonlinear_arith)
                    requires
                        ops_after(op) <= 11,
                ;
            },
        }
    }

    /// `pre` and `written` read only the bytes of their region.
    proof fn lemma_frame(&self, d1: Seq<u8>, d2: Seq<u8>, lo: int, hi: int)
        requires
            self.wf(),
            0 <= lo,
            lo + self.length <= hi <= d1.len(),
            d1.len() == d2.len(),
            forall|i: int| lo <= i < hi ==> d1[i] == d2[i],
        ensures
            self.pre(d1, lo, hi) == self.pre(d2, lo, hi),
            self.written(d1, lo, hi) == self.written(d2, lo, hi),
        decreases self,
    {
        match self.state {
            EWState::OpState { op, left, right } => {
                let end = lo + self.length - 1;
                let mid = end - right.length;
                left.lemma_frame(d1, d2, lo, mid);
                right.lemma_frame(d1, d2, mid, end);
            },
            _ => {},
        }
    }

    /// What a writer wrote is what its next write needs.
    proof fn lemma_written_pre(&self, d: Seq<u8>, lo: int, hi: int)
        requires
            self.wf(),
            self.written(d, lo, hi),
        ensures
            self.pre(d, lo, hi),
        decreases self,
    {
        match self.state {
            EWState::OpState { op, left, right } => {
                let end = lo + self.length - 1;
                let mid = end - right.length;
                right.lemma_written_pre(d, mid, end);
            },
            _ => {},
        }
    }
}

impl ExpressionWriter {
    /// The state of a writer of length 1 among the variables: all of them,
    /// or only the one that is still required.
    spec fn variable_start(&self) -> EWState {
        if self.required_vars == 0 {
            EWState::Variable { next: 0, max: (self.input_count - 1) as u8 }
        } else {
            let t = self.required_vars.trailing_zeros() as u8;
            EWState::Variable { next: t, max: t }
        }
    }

    /// The state a fresh writer moves to before its first write: the
    /// variables (length 1), the constants of two or three digits when no
    /// variable is required, else the operators from the first one (or only
    /// the required operator, or only the atoms); `None` when the length
    /// cannot hold the required variables or the requirement rules the
    /// length out.
    spec fn first_state_spec(&self) -> Option<EWState> {
        let req = self.required_vars;
        let cap = self.constant_cap;
        let atom_max: u8 = if cap < 100 { cap } else { 100 };
        let big_max: u8 = if cap < 156 { cap } else { 156 };
        if self.length + 1 < popcount(req as nat) * 2 {
            None
        } else {
            match self.op_requirement {
                Some(Some(op)) => if self.length == 1 {
                    None
                } else {
                    Some(EWState::PrepareOp { op })
                },
                Some(None) => if self.length == 1 {
                    Some(self.variable_start())
                } else if self.length == 2 && req == 0 {
                    Some(EWState::Constant { next: 10, max: atom_max })
                } else if self.length == 3 && req == 0 {
                    Some(EWState::Constant { next: 100, max: big_max })
                } else {
                    None
                },
                None => if self.length == 1 {
                    Some(self.variable_start())
                } else if self.length == 2 && req == 0 {
                    Some(EWState::Constant { next: 10, max: atom_max })
                } else if self.length == 3 && req == 0 {
                    Some(EWState::Constant { next: 100, max: big_max })
                } else {
                    Some(EWState::PrepareOp { op: Op::NOT })
                },
            }
        }
    }

    /// The state a fresh writer moves to before its first write, or `None`
    /// when it has nothing to write.
    fn first_state(&self) -> (r: Option<EWState>)
        requires
            self.wf(),
            self.state is Init,
        ensures
            r matches Some(st) ==> {
                &&& (st is Variable || st is Constant || st is PrepareOp)
                &&& st matches EWState::Variable { next, max } ==> max < self.input_count
                    && next <= max + 1 && self.length == 1 && (self.required_vars == 0 || (
                    self.required_vars == 1u64 << (max as u64) && next >= max))
                &&& st matches EWState::Constant { next, max } ==> {
                    &&& self.required_vars == 0
                    &&& max <= 156
                    &&& max <= self.constant_cap
                    &&& next <= 156
                    &&& self.length <= 3
                    &&& self.length == 1 ==> max <= 10
                    &&& self.length == 2 ==> 10 <= next && max <= 100
                    &&& self.length == 3 ==> 100 <= next
                }
                &&& self.op_requirement matches Some(Some(op)) ==> st == (EWState::PrepareOp { op })
                &&& self.op_requirement == Some(None::<Op>) ==> (st is Variable || st is Constant)
            },
            r == self.first_state_spec(),
    {
        if self.length + 1 < count_ones(self.required_vars) as usize * 2 {
            return None;
        }
        let req = self.required_vars;
        let ic = self.input_count;
        let cap = self.constant_cap;
        let atom_max: u8 = if cap < 100 { cap } else { 100 };
        let big_max: u8 = if cap < 156 { cap } else { 156 };
        let next_state = match self.op_requirement {
            Some(Some(op)) => {
                if self.length == 1 {
                    return None;
                }
                EWState::PrepareOp { op }
            },
            Some(None) => {
                if self.length == 1 {
                    if req == 0 {
                        EWState::Variable { next: 0, max: ic - 1 }
                    } else {
                        let t = req.trailing_zeros() as u8;
                        proof {
                            self.lemma_trailing_zero_below(req);
                        }
                        EWState::Variable { next: t, max: t }
                    }
                } else if self.length == 2 {
                    if req == 0 {
                        EWState::Constant { next: 10, max: atom_max }
                    } else {
                        return None;
                    }
                } else if self.length == 3 {
                    if req == 0 {
                        EWState::Constant { next: 100, max: big_max }
                    } else {
                        return None;
                    }
                } else {
                    return None;
                }
            },
            None => {
                if self.length == 1 {
                    if req == 0 {
                        EWState::Variable { next: 0, max: ic - 1 }
                    } else {
                        let t = req.trailing_zeros() as u8;
                        proof {
                            self.lemma_trailing_zero_below(req);
                        }
                        EWState::Variable { next: t, max: t }
                    }
                } else if self.length == 2 {
                    if req == 0 {
                        EWState::Constant { next: 10, max: atom_max }
                    } else {
                        EWState::PrepareOp { op: Op::first() }
                    }
                } else if self.length == 3 {
                    if req == 0 {
                        EWState::Constant { next: 100, max: big_max }
                    } else {
                        EWState::PrepareOp { op: Op::first() }
                    }
                } else {
                    EWState::PrepareOp { op: Op::first() }
                }
            },
        };
        Some(next_state)
    }
}

impl ExpressionWriter {
    /// A writer of every expression of `length` characters over
    /// `input_count` variables, each of which appears. Constants are below
    /// `constant_cap`; `op_requirement` restricts the top-level operator to
    /// the given one, or to none at all (`Some(None)`).
    pub fn new(
        input_count: usize,
        length: usize,
        constant_cap: u8,
        op_requirement: Option<Option<Op>>,
    ) -> (r: Self)
        requires
            1 <= input_count <= 63,
            1 <= length < usize::MAX,
        ensures
            r.wf(),
            r.is_fresh(),
            r.is_top(),
            r.requires_all_vars(),
            r.input_count_spec() == input_count,
            r.len_spec() == length,
            r.constant_cap_spec() == constant_cap,
            r.op_requirement_spec() == op_requirement,
            r.follows_requirement(),
            forall|d: Seq<u8>, lo: int, hi: int| r.pre(d, lo, hi),
            r.remaining() == expression_set(input_count as u8, length, constant_cap, op_requirement),
    {
        let k: u64 = input_count as u64;
        proof {
            assert((1u64 << k) >= 1u64) by (bit_vector)
                requires
                    k <= 63,
            ;
        }
        let required_vars: u64 = (1u64 << k) - 1;
        proof {
            assert((required_vars >> k) == 0u64) by (bit_vector)
                requires
                    k <= 63,
                    required_vars == (1u64 << k) - 1,
            ;
        }
        let r = ExpressionWriter {
            input_count: input_count as u8,
            required_vars,
            length,
            min_prec: 0,
            constant_cap,
            op_requirement,
            state: EWState::Init,
            vum_of_last_write: 0,
        };
        proof {
            r.lemma_fresh_remaining();
        }
        r
    }

    /// Write the next expression into the first `len_spec()` bytes of `dest`;
    /// `false` once every expression was written. After a `false` the
    /// writer is done. Each write takes the expression it writes out of
    /// `remaining()`, which holds all of them when the writer is new; the
    /// atoms come first, then the operators in their order (`top_order`).
    pub fn write(&mut self, dest: &mut [u8]) -> (r: bool)
        requires
            old(self).wf(),
            old(self).follows_requirement(),
            old(self).len_spec() <= old(dest)@.len(),
            old(self).pre(old(dest)@, 0, old(dest)@.len() as int),
        ensures
            r ==> old(self).remaining().contains(
                final(dest)@.subrange(0, old(self).len_spec() as int),
            ),
            r ==> final(self).remaining() == old(self).remaining().remove(
                final(dest)@.subrange(0, old(self).len_spec() as int),
            ),
            r ==> forall|z: Seq<u8>|
                #[trigger] final(self).remaining().contains(z) ==> top_order(z) >= top_order(
                    final(dest)@.subrange(0, old(self).len_spec() as int),
                ),
            r && old(self).is_top() && old(self).requires_all_vars() ==> forall|z: Seq<u8>|
                #[trigger] final(self).remaining().contains(z) ==> expression_key(
                    old(self).input_count_spec(),
                    old(self).len_spec(),
                    old(self).constant_cap_spec(),
                    z,
                ) < expression_key(
                    old(self).input_count_spec(),
                    old(self).len_spec(),
                    old(self).constant_cap_spec(),
                    final(dest)@.subrange(0, old(self).len_spec() as int),
                ),
            r ==> forall|i: int|
                old(self).len_spec() <= i < final(dest)@.len() ==> final(dest)@[i] == 255u8,
            !r <==> old(self).remaining().is_empty(),
            final(self).wf(),
            final(self).same_shape(old(self)),
            final(self).len_spec() == old(self).len_spec(),
            final(self).input_count_spec() == old(self).input_count_spec(),
            final(self).is_top() == old(self).is_top(),
            final(self).requires_all_vars() == old(self).requires_all_vars(),
            final(dest)@.len() == old(dest)@.len(),
            final(self).rank() <= old(self).rank(),
            r ==> final(self).rank() < old(self).rank(),
            r ==> final(self).written(final(dest)@, 0, final(dest)@.len() as int),
            r ==> final(self).pre(final(dest)@, 0, final(dest)@.len() as int),
            old(self).follows_requirement() ==> final(self).follows_requirement(),
            old(self).live() ==> r,
            old(self).barren() ==> !r && *final(self) == *old(self) && final(dest)@ == old(dest)@,
    {
        let ghost w0 = *self;
        let hi = dest.len();
        let r = self.write_region(dest, 0, hi);
        proof {
            if r {
                self.lemma_written_tail(dest@, 0, hi as int);
                self.lemma_written_pre(dest@, 0, hi as int);
                w0.lemma_remaining_step(&*self, dest@);
            } else {
                w0.lemma_remaining_empty();
            }
        }
        r
    }

    #[verifier::rlimit(100)]
    #[verifier::spinoff_prover]
    fn write_region(&mut self, dest: &mut [u8], lo: usize, hi: usize) -> (r: bool)
        requires
            old(self).wf(),
            lo + old(self).length <= hi <= old(dest)@.len(),
            old(self).pre(old(dest)@, lo as int, hi as int),
        ensures
            final(self).wf(),
            final(self).same_shape(old(self)),
            final(self).state is Dummy <==> old(self).state is Dummy,
            final(self).state is Init ==> old(self).state is Init,
            final(dest)@.len() == old(dest)@.len(),
            forall|i: int|
                0 <= i < old(dest)@.len() && !(lo <= i < hi) ==> final(dest)@[i] == old(
                    dest,
                )@[i],
            final(self).rank() <= old(self).rank(),
            r ==> final(self).rank() < old(self).rank(),
            r ==> final(self).written(final(dest)@, lo as int, hi as int),
            old(self).follows_requirement() ==> final(self).follows_requirement(),
            old(self).live() ==> r,
            old(self).barren() ==> !r && *final(self) == *old(self) && final(dest)@ == old(dest)@,
            old(self).follows_requirement() && !r ==> old(self).none_in(0, old(self).rank() as int),
            old(self).follows_requirement() && r ==> old(self).none_in(
                final(self).rank() + 1int,
                old(self).rank() as int,
            ),
            (match old(self).state {
                EWState::Variable { next, max } => next <= max ==> {
                    &&& final(self).state == (EWState::Variable { next: (next + 1) as u8, max })
                    &&& final(dest)@ == old(dest)@.update(
                        lo + old(self).length - 1,
                        (242 - next) as u8,
                    )
                },
                EWState::Constant { next, max } => next < max ==> {
                    &&& final(self).state == (EWState::Constant { next: (next + 1) as u8, max })
                    &&& final(dest)@ == old(dest)@.update(lo + old(self).length - 1, next)
                },
                _ => true,
            }),
        decreases old(self).length, old(self).rank(), 1nat,
    {
        let ghost w0 = *self;
        match self.state {
            EWState::Dummy => {
                return false;
            },
            EWState::Init => {
                let next_state = match self.first_state() {
                    Some(st) => st,
                    None => {
                        proof {
                            w0.lemma_barren_none();
                        }
                        return false;
                    },
                };
                self.state = next_state;
                fill_nops(dest, lo, hi);
                proof {
                    lemma_bound_mono(self.length as nat, self.length as nat);
                    let s = block(self.length as nat);
                    if let EWState::PrepareOp { op } = self.state {
                        assert(ops_after(op) * (2 * s) + s <= 23 * s) by (nonlinear_arith)
                            requires
                                ops_after(op) <= 11,
                        ;
                    }
                }
                let ghost mid = *self;
                proof {
                    w0.lemma_first_state_top(mid);
                }
                let r = self.write_region(dest, lo, hi);
                proof {
                    if w0.follows_requirement() {
                        if r {
                            w0.lemma_none_join(&mid, self.rank() + 1int, mid.rank() as int, w0.rank() as int);
                        } else {
                            w0.lemma_none_join(&mid, 0, mid.rank() as int, w0.rank() as int);
                        }
                    }
                }
                return r;
            },
            EWState::Variable { next, max } => {
                if next <= max {
                    self.state = EWState::Variable { next: next + 1, max };
                    dest[lo + self.length - 1] = Op::highest_unused_code() - next;
                    let nx: u64 = next as u64;
                    self.vum_of_last_write = 1u64 << nx;
                    return true;
                }
                if self.required_vars > 0 {
                    proof {
                        w0.lemma_variables_done(0);
                    }
                    return false;
                }
                let cap = self.constant_cap;
                let small_max: u8 = if cap < 10 { cap } else { 10 };
                self.state = EWState::Constant { next: 0, max: small_max };
                let ghost mid = *self;
                proof {
                    w0.lemma_variables_done(mid.rank() as int);
                }
                let r = self.write_region(dest, lo, hi);
                proof {
                    if w0.follows_requirement() {
                        if r {
                            w0.lemma_none_join(&mid, self.rank() + 1int, mid.rank() as int, w0.rank() as int);
                        } else {
                            w0.lemma_none_join(&mid, 0, mid.rank() as int, w0.rank() as int);
                        }
                    }
                }
                return r;
            },
            EWState::Constant { next, max } => {
                if next < max {
                    self.state = EWState::Constant { next: next + 1, max };
                    dest[lo + self.length - 1] = next;
                    self.vum_of_last_write = 0;
                    return true;
                }
                if self.op_requirement.is_some() {
                    proof {
                        if w0.follows_requirement() {
                            w0.lemma_constants_done(0);
                        }
                    }
                    return false;
                }
                self.state = EWState::PrepareOp { op: Op::first() };
                proof {
                    lemma_bound_mono(self.length as nat, self.length as nat);
                    let s = block(self.length as nat);
                    assert(10 * (2 * s) + s == 21 * s);
                }
                let ghost mid = *self;
                proof {
                    if w0.follows_requirement() {
                        w0.lemma_constants_done(mid.rank() as int);
                    }
                }
                let r = self.write_region(dest, lo, hi);
                proof {
                    if w0.follows_requirement() {
                        if r {
                            w0.lemma_none_join(&mid, self.rank() + 1int, mid.rank() as int, w0.rank() as int);
                        } else {
                            w0.lemma_none_join(&mid, 0, mid.rank() as int, w0.rank() as int);
                        }
                    }
                }
                return r;
            },
            EWState::PrepareOp { op } => {
                let wasted_space = op.len() + if op.prec() < self.min_prec { 2 } else { 0 };
                if wasted_space + op.arity() > self.length {
                    match op.next() {
                        Some(next) => {
                            if self.op_requirement.is_some() {
                                proof {
                                    if w0.follows_requirement() {
                                        w0.lemma_op_unfit(0);
                                    }
                                }
                                return false;
                            }
                            self.state = EWState::PrepareOp { op: next };
                            proof {
                                let s = block(self.length as nat);
                                assert(ops_after(next) + 1 == ops_after(op));
                                assert(ops_after(next) * (2 * s) + 2 * s == ops_after(op) * (2
                                    * s)) by (nonlinear_arith)
                                    requires
                                        ops_after(next) + 1 == ops_after(op),
                                ;
                            }
                            let ghost mid = *self;
                            proof {
                                if w0.follows_requirement() {
                                    w0.lemma_op_unfit(mid.rank() as int);
                                }
                            }
                            let r = self.write_region(dest, lo, hi);
                            proof {
                                if w0.follows_requirement() {
                                    if r {
                                        w0.lemma_none_join(&mid, self.rank() + 1int, mid.rank() as int, w0.rank() as int);
                                    } else {
                                        w0.lemma_none_join(&mid, 0, mid.rank() as int, w0.rank() as int);
                                    }
                                }
                            }
                            return r;
                        },
                        None => {
                            proof {
                                if w0.follows_requirement() {
                                    w0.lemma_op_unfit(0);
                                }
                            }
                            return false;
                        },
                    }
                }
                fill_nops(dest, lo, hi);
                dest[lo + self.length - 1] = op.code();
                let ic = self.input_count;
                let cap = self.constant_cap;
                let req = self.required_vars;
                if op.arity() == 1 {
                    let left = Box::new(
                        ExpressionWriter {
                            input_count: 0,
                            length: 0,
                            min_prec: 0,
                            constant_cap: cap,
                            required_vars: 0,
                            op_requirement: None,
                            state: EWState::Dummy,
                            vum_of_last_write: 0,
                        },
                    );
                    let right = Box::new(
                        ExpressionWriter {
                            input_count: ic,
                            length: self.length - wasted_space,
                            min_prec: op.prec(),
                            constant_cap: cap,
                            required_vars: req,
                            op_requirement: None,
                            state: EWState::Init,
                            vum_of_last_write: 0,
                        },
                    );
                    assert(left.wf());
                    assert(right.wf());
                    assert(left.written(dest@, lo as int, (lo + self.length - 1 - right.length) as int));
                    assert(right.pre(dest@, (lo + self.length - 1 - right.length) as int, (lo + self.length - 1) as int));
                    self.state = EWState::OpState { op, left, right };
                } else {
                    let left = Box::new(
                        ExpressionWriter {
                            input_count: ic,
                            length: 1,
                            min_prec: op.prec(),
                            constant_cap: cap,
                            required_vars: 0,
                            op_requirement: None,
                            state: EWState::Init,
                            vum_of_last_write: 0,
                        },
                    );
                    let right = Box::new(
                        ExpressionWriter {
                            input_count: ic,
                            length: self.length - wasted_space - 1,
                            min_prec: op.prec() + 1,
                            constant_cap: cap,
                            required_vars: 0,
                            op_requirement: None,
                            state: EWState::Init,
                            vum_of_last_write: 0,
                        },
                    );
                    proof {
                        assert((0u64 >> (ic as u64)) == 0u64) by (bit_vector);
                    }
                    assert(left.wf());
                    assert(right.wf());
                    assert(right.pre(dest@, (lo + self.length - 1 - right.length) as int, (lo + self.length - 1) as int));
                    self.state = EWState::OpState { op, left, right };
                }
                proof {
                    self.lemma_fresh_op_rank(op);
                }
                let ghost mid = *self;
                proof {
                    if w0.follows_requirement() {
                        w0.lemma_op_fresh_top(mid);
                    }
                }
                let r = self.write_region(dest, lo, hi);
                proof {
                    if w0.follows_requirement() {
                        if r {
                            w0.lemma_none_join(&mid, self.rank() + 1int, mid.rank() as int, w0.rank() as int);
                        } else {
                            w0.lemma_none_join(&mid, 0, mid.rank() as int, w0.rank() as int);
                        }
                    }
                }
                return r;
            },
            EWState::OpState { .. } => {},
        }
        self.write_op_state(dest, lo, hi)
    }
}

impl ExpressionWriter {
    /// A nonzero set of required variables, below `input_count` bits, has
    /// its lowest variable below `input_count`.
    proof fn lemma_trailing_zero_below(&self, req: u64)
        requires
            self.wf(),
            !(self.state is Dummy),
            req == self.required_vars,
            req != 0,
        ensures
            req.trailing_zeros() < self.input_count,
            popcount(req as nat) <= 1 ==> req == 1u64 << (req.trailing_zeros() as u64),
    {
        vstd::std_specs::bits::axiom_u64_trailing_zeros(req);
        let t = req.trailing_zeros() as u64;
        let ic = self.input_count as u64;
        assert(t < 64);
        assert(((req >> ic) == 0u64 && ic < 64 && t < 64 && ((req >> t) & 1u64) == 1u64)
            ==> t < ic) by (bit_vector);
        if popcount(req as nat) <= 1 {
            lemma_single_bit(req, t);
        }
    }

    /// An operator state with fresh operands ranks below the state that
    /// prepared it.
    proof fn lemma_fresh_op_rank(&self, op: Op)
        requires
            self.wf(),
            self.state matches EWState::OpState { op: o, left, right } && o == op && (
            left.state is Init || left.state is Dummy) && right.state is Init,
        ensures
            self.rank() < ops_after(op) * (2 * block(self.length as nat)) + block(
                self.length as nat,
            ),
    {
        if let EWState::OpState { op: o, left, right } = self.state {
            let n = self.length as nat;
            let b = bound((n - 1) as nat);
            lemma_bound_mono(left.length as nat, (n - 1) as nat);
            lemma_bound_mono(right.length as nat, (n - 1) as nat);
            left.lemma_rank_bound();
            right.lemma_rank_bound();
            lemma_bracket(right.length as nat, left.rank(), right.rank(), b, n);
            assert(block(n) == (n + 1) * (b * b) + 1);
            assert(n * (b * b) < block(n)) by (nonlinear_arith)
                requires
                    block(n) == (n + 1) * (b * b) + 1,
            ;
        }
    }

    /// The next operator after `op`, when the writer may move on to it.
    proof fn lemma_next_op_rank(&self, op: Op, next: Op)
        requires
            op.next() == Some(next),
        ensures
            ops_after(next) * (2 * block(self.length as nat)) + block(self.length as nat)
                < ops_after(op) * (2 * block(self.length as nat)),
    {
        let s = block(self.length as nat);
        lemma_bound_mono(self.length as nat, self.length as nat);
        assert(ops_after(next) + 1 == ops_after(op));
        assert(ops_after(next) * (2 * s) + 2 * s == ops_after(op) * (2 * s)) by (nonlinear_arith)
            requires
                ops_after(next) + 1 == ops_after(op),
        ;
    }

    #[verifier::rlimit(100)]
    #[verifier::spinoff_prover]
    fn write_op_state(&mut self, dest: &mut [u8], lo: usize, hi: usize) -> (r: bool)
        requires
            old(self).wf(),
            old(self).state is OpState,
            lo + old(self).length <= hi <= old(dest)@.len(),
            old(self).pre(old(dest)@, lo as int, hi as int),
        ensures
            final(self).wf(),
            final(self).same_shape(old(self)),
            !(final(self).state is Dummy),
            !(final(self).state is Init),
            final(dest)@.len() == old(dest)@.len(),
            forall|i: int|
                0 <= i < old(dest)@.len() && !(lo <= i < hi) ==> final(dest)@[i] == old(
                    dest,
                )@[i],
            final(self).rank() <= old(self).rank(),
            r ==> final(self).rank() < old(self).rank(),
            r ==> final(self).written(final(dest)@, lo as int, hi as int),
            old(self).follows_requirement() ==> final(self).follows_requirement(),
            old(self).live() ==> r,
            old(self).follows_requirement() && !r ==> old(self).none_in(0, old(self).rank() as int),
            old(self).follows_requirement() && r ==> old(self).none_in(
                final(self).rank() + 1int,
                old(self).rank() as int,
            ),
        decreases old(self).length, old(self).rank(), 0nat,
    {
        let ghost d0 = dest@;
        let ghost r0 = self.rank();
        let ghost n = self.length as nat;
        let ghost s = block(n);
        let ghost b = bound((n - 1) as nat);
        let ghost p0 = *self;
        let mut st = EWState::Dummy;
        std::mem::swap(&mut st, &mut self.state);
        let (op, mut left, mut right) = match st {
            EWState::OpState { op, left, right } => (op, left, right),
            _ => {
                proof {
                    assert(false);
                }
                return false;
            },
        };
        let ghost left0 = *left;
        let ghost right0 = *right;
        proof {
            left0.lemma_rank_bound();
            right0.lemma_rank_bound();
            lemma_bound_mono(left0.length as nat, (n - 1) as nat);
            lemma_bound_mono(right0.length as nat, (n - 1) as nat);
            lemma_bracket(right0.length as nat, left0.rank(), right0.rank(), b, n);
        }
        let end = lo + self.length - 1;
        let mid = end - right.length;
        if matches!(left.state, EWState::Init) {
            let ok = (&mut *left).write_region(dest, lo, mid);
            proof {
                right0.lemma_frame(d0, dest@, mid as int, end as int);
            }
            if !ok {
                proof {
                    left0.lemma_fresh_has_candidate();
                }
                match op.next() {
                    Some(next) => {
                        if self.op_requirement.is_some() {
                            proof {
                                lemma_bound_mono(left.length as nat, (n - 1) as nat);
                                left.lemma_rank_bound();
                                assert(left.rank() * b <= left0.rank() * b) by (nonlinear_arith)
                                    requires
                                        left.rank() <= left0.rank(),
                                ;
                            }
                            self.state = EWState::OpState { op, left, right };
                            return false;
                        }
                        self.state = EWState::PrepareOp { op: next };
                        proof {
                            self.lemma_next_op_rank(op, next);
                        }
                        return self.write_region(dest, lo, hi);
                    },
                    None => {
                        proof {
                            assert(left.rank() * b <= left0.rank() * b) by (nonlinear_arith)
                                requires
                                    left.rank() <= left0.rank(),
                            ;
                        }
                        self.state = EWState::OpState { op, left, right };
                        return false;
                    },
                }
            }
            proof {
                let ic = self.input_count as u64;
                let rq = self.required_vars;
                let lv = left.vum_of_last_write;
                assert((rq >> ic) == 0u64 ==> ((rq & !lv) >> ic) == 0u64) by (bit_vector);
            }
            proof {
                assert(right.state is Init);
                assert(right.wf());
                assert(right.input_count == self.input_count);
            }
            right.required_vars = self.required_vars & !left.vum_of_last_write;
            proof {
                assert(right.wf());
                assert(right.pre(dest@, mid as int, end as int));
                right0.lemma_rank_bound();
            }
        }
        let ghost left1 = *left;
        let ghost right1 = *right;
        let ghost d1 = dest@;
        proof {
            assert(left1.rank() <= left0.rank());
            assert(right1.rank() == right0.rank());
        }
        proof {
            assert(left1.written(d1, lo as int, mid as int));
            if left0.state is Init {
                left1.lemma_written_holds(d1, lo as int, mid as int);
            } else {
                left1.lemma_written_holds(d0, lo as int, mid as int);
            }
            assert(p0.moved(left1, right1));
        }
        let ok = (&mut *right).write_region(dest, mid, end);
        proof {
            left1.lemma_frame(d1, dest@, lo as int, mid as int);
            left1.lemma_written_pre(dest@, lo as int, mid as int);
        }
        if ok {
            self.vum_of_last_write = left.vum_of_last_write | right.vum_of_last_write;
            proof {
                assert(left1.rank() * b + right.rank() < left0.rank() * b + right0.rank()) by (
                nonlinear_arith)
                    requires
                        left1.rank() <= left0.rank(),
                        right.rank() < right0.rank(),
                ;
            }
            let ghost right_w = *right;
            self.state = EWState::OpState { op, left, right };
            proof {
                if p0.follows_requirement() {
                    p0.lemma_op_after_right(left1, right1, right_w, *self);
                }
            }
            return true;
        }
        let ghost right2 = *right;
        let ghost d2 = dest@;
        let ok = (&mut *left).write_region(dest, lo, mid);
        proof {
            right2.lemma_frame(d2, dest@, mid as int, end as int);
        }
        if ok {
            right.state = EWState::Init;
            proof {
                let ic = self.input_count as u64;
                let rq = self.required_vars;
                let lv = left.vum_of_last_write;
                assert((rq >> ic) == 0u64 ==> ((rq & !lv) >> ic) == 0u64) by (bit_vector);
            }
            right.required_vars = self.required_vars & !left.vum_of_last_write;
            proof {
                assert(right.wf());
                lemma_bound_mono(right.length as nat, (n - 1) as nat);
                right.lemma_rank_bound();
                lemma_lex_step(left.rank(), right.rank(), left0.rank(), right0.rank(), b);
                left.lemma_written_pre(dest@, lo as int, mid as int);
                assert(right.pre(dest@, mid as int, end as int));
                assert(dest@[end as int] == d0[end as int]);
                assert(forall|i: int| end < i < hi ==> dest@[i] == d0[i]);
                left.lemma_written_holds(dest@, lo as int, mid as int);
            }
            let ghost left_w = *left;
            self.state = EWState::OpState { op, left, right };
            let ghost midst = *self;
            proof {
                if p0.follows_requirement() {
                    p0.lemma_op_after_left(left1, right1, left_w, midst);
                }
            }
            let r = self.write_region(dest, lo, hi);
            proof {
                if p0.follows_requirement() {
                    if r {
                        p0.lemma_none_join(&midst, self.rank() + 1int, midst.rank() as int, p0.rank() as int);
                    } else {
                        p0.lemma_none_join(&midst, 0, midst.rank() as int, p0.rank() as int);
                    }
                }
            }
            return r;
        }
        if right.length > 1 && !matches!(left.state, EWState::Dummy) {
            left.length = left.length + 1;
            left.state = EWState::Init;
            right.length = right.length - 1;
            right.state = EWState::Init;
            proof {
                assert(left.wf());
                assert(right.wf());
                lemma_bound_mono(right.length as nat, (n - 1) as nat);
                lemma_bound_mono(left.length as nat, (n - 1) as nat);
                right.lemma_rank_bound();
                left.lemma_rank_bound();
                lemma_bracket(right.length as nat, left.rank(), right.rank(), b, (right.length
                    + 1) as nat);
                assert(right.pre(dest@, (mid + 1) as int, end as int));
                assert(dest@[end as int] == d0[end as int]);
                assert(forall|i: int| end < i < hi ==> dest@[i] == d0[i]);
            }
            self.state = EWState::OpState { op, left, right };
            let ghost midst = *self;
            proof {
                if p0.follows_requirement() {
                    p0.lemma_op_shift(left1, right1, midst);
                }
            }
            let r = self.write_region(dest, lo, hi);
            proof {
                if p0.follows_requirement() {
                    if r {
                        p0.lemma_none_join(&midst, self.rank() + 1int, midst.rank() as int, p0.rank() as int);
                    } else {
                        p0.lemma_none_join(&midst, 0, midst.rank() as int, p0.rank() as int);
                    }
                }
            }
            return r;
        }
        match op.next() {
            Some(next) => {
                if self.op_requirement.is_some() {
                    proof {
                        left.lemma_rank_bound();
                        right.lemma_rank_bound();
                        lemma_bound_mono(left.length as nat, (n - 1) as nat);
                        lemma_bound_mono(right.length as nat, (n - 1) as nat);
                        assert(left.rank() * b + right.rank() <= left0.rank() * b + right0.rank())
                            by (nonlinear_arith)
                            requires
                                left.rank() <= left0.rank(),
                                right.rank() <= right0.rank(),
                        ;
                    }
                    self.state = EWState::OpState { op, left, right };
                    proof {
                        if p0.follows_requirement() {
                            p0.lemma_op_exhausted(left1, right1, 0);
                        }
                    }
                    return false;
                }
                self.state = EWState::PrepareOp { op: next };
                proof {
                    self.lemma_next_op_rank(op, next);
                }
                let ghost midst = *self;
                proof {
                    if p0.follows_requirement() {
                        p0.lemma_op_exhausted(left1, right1, midst.rank() as int);
                    }
                }
                let r = self.write_region(dest, lo, hi);
                proof {
                    if p0.follows_requirement() {
                        if r {
                            p0.lemma_none_join(&midst, self.rank() + 1int, midst.rank() as int, p0.rank() as int);
                        } else {
                            p0.lemma_none_join(&midst, 0, midst.rank() as int, p0.rank() as int);
                        }
                    }
                }
                r
            },
            None => {
                proof {
                    assert(left.rank() * b + right.rank() <= left0.rank() * b + right0.rank()) by (
                    nonlinear_arith)
                        requires
                            left.rank() <= left0.rank(),
                            right.rank() <= right0.rank(),
                    ;
                }
                self.state = EWState::OpState { op, left, right };
                proof {
                    if p0.follows_requirement() {
                        p0.lemma_op_exhausted(left1, right1, 0);
                    }
                }
                false
            },
        }
    }
}

/// Comparing `q * m + r` digit by digit, when the remainders are below `m`.
proof fn lemma_digits(q1: nat, r1: nat, q2: nat, r2: nat, m: nat)
    requires
        r1 < m,
        r2 < m,
    ensures
        (q1 * m + r1 < q2 * m + r2) <==> (q1 < q2 || (q1 == q2 && r1 < r2)),
        (q1 * m + r1 == q2 * m + r2) <==> (q1 == q2 && r1 == r2),
{
    if q1 < q2 {
        assert(q1 * m + m <= q2 * m) by (nonlinear_arith)
            requires
                q1 < q2,
        ;
    } else if q2 < q1 {
        assert(q2 * m + m <= q1 * m) by (nonlinear_arith)
            requires
                q2 < q1,
        ;
    }
}

/// The part of an operator state's rank below its operator's, compared
/// digit by digit: the right operand's length, then the operands' ranks.
proof fn lemma_triple(rl1: nat, lr1: nat, rr1: nat, rl2: nat, lr2: nat, rr2: nat, b: nat)
    requires
        lr1 < b,
        rr1 < b,
        lr2 < b,
        rr2 < b,
    ensures
        (rl1 * (b * b) + lr1 * b + rr1 < rl2 * (b * b) + lr2 * b + rr2) <==> (rl1 < rl2 || (rl1
            == rl2 && (lr1 < lr2 || (lr1 == lr2 && rr1 < rr2)))),
        (rl1 * (b * b) + lr1 * b + rr1 == rl2 * (b * b) + lr2 * b + rr2) <==> (rl1 == rl2 && lr1
            == lr2 && rr1 == rr2),
{
    lemma_digits(lr1, rr1, lr2, rr2, b);
    assert(lr1 * b + rr1 < b * b) by (nonlinear_arith)
        requires
            lr1 < b,
            rr1 < b,
    ;
    assert(lr2 * b + rr2 < b * b) by (nonlinear_arith)
        requires
            lr2 < b,
            rr2 < b,
    ;
    lemma_digits(rl1, lr1 * b + rr1, rl2, lr2 * b + rr2, b * b);
}

/// Facts of small words.
proof fn lemma_word_facts()
    by (bit_vector)
    ensures
        1u64 << 0u64 == 1u64,
        0u64 | 1u64 == 1u64,
        1u64 | 0u64 == 1u64,
        1u64 & !1u64 == 0u64,
        1u64 >> 1u64 == 0u64,
        1u64 << 1u64 == 2u64,
        forall|k: u64| #[trigger] (0u64 >> k) == 0u64,
        forall|m: u64| m < 64 && #[trigger] (1u64 << m) == 1u64 ==> m == 0u64,
{
}

/// A word with a single one has one one.
proof fn lemma_popcount_pow(k: u64)
    requires
        k < 64,
    ensures
        popcount((1u64 << k) as nat) == 1,
    decreases k,
{
    let x = 1u64 << k;
    lemma_popcount_half(x);
    if k == 0 {
        assert(x >> 1u64 == 0u64 && x & 1u64 == 1u64) by (bit_vector)
            requires
                x == 1u64 << k,
                k == 0,
        ;
    } else {
        let j = (k - 1) as u64;
        assert((x >> 1u64) == 1u64 << j && x & 1u64 == 0u64) by (bit_vector)
            requires
                x == 1u64 << k,
                0 < k < 64,
                j + 1 == k,
        ;
        lemma_popcount_pow(j);
    }
}

/// The ones of `a | b` are at most those of `a` and `b` together.
proof fn lemma_popcount_or(a: u64, b: u64)
    ensures
        popcount((a | b) as nat) <= popcount(a as nat) + popcount(b as nat),
    decreases a as nat + b as nat,
{
    let x = a | b;
    if a == 0 && b == 0 {
        assert(x == 0u64) by (bit_vector)
            requires
                x == a | b,
                a == 0u64,
                b == 0u64,
        ;
    } else {
        lemma_popcount_half(x);
        lemma_popcount_half(a);
        lemma_popcount_half(b);
        assert((x >> 1u64) == (a >> 1u64) | (b >> 1u64) && (x & 1u64) <= (a & 1u64) + (b
            & 1u64)) by (bit_vector)
            requires
                x == a | b,
        ;
        assert((a >> 1u64) <= a && (b >> 1u64) <= b) by (bit_vector);
        assert((a >> 1u64) < a || (b >> 1u64) < b) by (bit_vector)
            requires
                !(a == 0u64 && b == 0u64),
        ;
        lemma_popcount_or(a >> 1u64, b >> 1u64);
    }
}

/// A word whose ones are among those of `b` has no more ones than `b`.
proof fn lemma_popcount_subset(a: u64, b: u64)
    requires
        a & !b == 0u64,
    ensures
        popcount(a as nat) <= popcount(b as nat),
    decreases a,
{
    if a != 0 {
        lemma_popcount_half(a);
        lemma_popcount_half(b);
        assert(((a >> 1u64) & !(b >> 1u64)) == 0u64 && (a & 1u64) <= (b & 1u64)) by (
        bit_vector)
            requires
                a & !b == 0u64,
        ;
        assert((a >> 1u64) < a) by (bit_vector)
            requires
                a != 0u64,
        ;
        lemma_popcount_subset(a >> 1u64, b >> 1u64);
    }
}

/// The empty operand of a unary operator.
spec fn dummy_writer(cap: u8) -> ExpressionWriter {
    ExpressionWriter {
        input_count: 0,
        required_vars: 0,
        length: 0,
        min_prec: 0,
        constant_cap: cap,
        op_requirement: None,
        state: EWState::Dummy,
        vum_of_last_write: 0,
    }
}

/// `!!…!a`: an expression of each length over the first variable, as the
/// state of a writer that holds it; `req` is the variables it must use.
spec fn chain(ic: u8, cap: u8, len: usize, mp: usize, req: u64) -> ExpressionWriter
    decreases len,
{
    if len <= 1 {
        ExpressionWriter {
            input_count: ic,
            required_vars: req,
            length: len,
            min_prec: mp,
            constant_cap: cap,
            op_requirement: None,
            state: EWState::Variable { next: 1, max: (ic - 1) as u8 },
            vum_of_last_write: 1,
        }
    } else {
        ExpressionWriter {
            input_count: ic,
            required_vars: req,
            length: len,
            min_prec: mp,
            constant_cap: cap,
            op_requirement: None,
            state: EWState::OpState {
                op: Op::NOT,
                left: Box::new(dummy_writer(cap)),
                right: Box::new(chain(ic, cap, (len - 1) as usize, 6, req)),
            },
            vum_of_last_write: 1,
        }
    }
}

/// The bytes of `!!…!a`: the variable, then one `!` for each further
/// character.
pub open spec fn chain_bytes(len: nat) -> Seq<u8> {
    seq![242u8] + Seq::new((len - 1) as nat, |i: int| 254u8)
}

/// Every length has an expression with no variable required, or with only
/// the variable of a single input: `!!…!a`.
proof fn lemma_chain(ic: u8, cap: u8, len: usize, mp: usize, req: u64)
    requires
        1 <= ic <= 63,
        1 <= len < usize::MAX,
        mp <= 6,
        req == 0 || (req == 1 && ic == 1),
    ensures
        chain(ic, cap, len, mp, req).wf(),
        chain(ic, cap, len, mp, req).holds(),
        chain(ic, cap, len, mp, req).vum_of_last_write == 1,
        chain(ic, cap, len, mp, req).input_count == ic,
        chain(ic, cap, len, mp, req).required_vars == req,
        chain(ic, cap, len, mp, req).length == len,
        chain(ic, cap, len, mp, req).min_prec == mp,
        chain(ic, cap, len, mp, req).constant_cap == cap,
        chain(ic, cap, len, mp, req).op_requirement is None,
        chain(ic, cap, len, mp, req).written(chain_bytes(len as nat), 0, len as int),
    decreases len,
{
    lemma_word_facts();
    let k = ic as u64;
    assert((req >> k) == 0u64);
    let c = chain(ic, cap, len, mp, req);
    let d = chain_bytes(len as nat);
    if len > 1 {
        lemma_chain(ic, cap, (len - 1) as usize, 6, req);
        let r = chain(ic, cap, (len - 1) as usize, 6, req);
        let l = dummy_writer(cap);
        assert(l.wf());
        assert(c.state == (EWState::OpState { op: Op::NOT, left: Box::new(l), right: Box::new(r) }));
        assert(wasted(Op::NOT, mp) == 1);
        assert(c.wf());
        assert(l.holds());
        assert(r.holds());
        assert(l.vum_of_last_write | r.vum_of_last_write == 1u64);
        assert(c.holds());
        let d1 = chain_bytes((len - 1) as nat);
        r.lemma_written_sub(d1, d, 0, len - 1, len - 1);
        assert(l.written(d, 0, 0));
        assert(d[len - 1] == Op::NOT.code());
        assert(c.written(d, 0, len as int));
    } else {
        assert(c.state == (EWState::Variable { next: 1, max: (ic - 1) as u8 }));
        let z = (1u8 - 1) as u64;
        assert(z == 0u64);
        assert(c.wf());
        assert(c.holds());
        assert(d[0] == 242);
        assert(c.written(d, 0, len as int));
    }
}

impl ExpressionWriter {
    /// An operator state's rank lies in its operator's window, and splits
    /// into the right operand's length and the two operands' ranks.
    proof fn lemma_op_window(&self)
        requires
            self.wf(),
            self.state is OpState,
        ensures
            self.state matches EWState::OpState { op, left, right } ==> {
                let s = block(self.length as nat);
                let b = bound((self.length - 1) as nat);
                &&& ops_after(op) * (2 * s) <= self.rank()
                &&& self.rank() < ops_after(op) * (2 * s) + s
                &&& self.rank() < 23 * s
                &&& left.rank() < b
                &&& right.rank() < b
                &&& right.length <= self.length - 1
                &&& self.rank() == ops_after(op) * (2 * s) + (right.length as nat) * (b * b)
                    + left.rank() * b + right.rank()
            },
    {
        if let EWState::OpState { op, left, right } = self.state {
            let n = self.length as nat;
            let s = block(n);
            let b = bound((n - 1) as nat);
            left.lemma_rank_bound();
            right.lemma_rank_bound();
            lemma_bound_mono(left.length as nat, (n - 1) as nat);
            lemma_bound_mono(right.length as nat, (n - 1) as nat);
            lemma_bracket(right.length as nat, left.rank(), right.rank(), b, n);
            assert(s == (n + 1) * (b * b) + 1);
            assert(n * (b * b) < s) by (nonlinear_arith)
                requires
                    s == (n + 1) * (b * b) + 1,
            ;
            assert(ops_after(op) * (2 * s) + s <= 23 * s) by (nonlinear_arith)
                requires
                    ops_after(op) <= 11,
            ;
        }
    }

    /// What a writer wrote, it holds.
    proof fn lemma_written_holds(&self, d: Seq<u8>, lo: int, hi: int)
        requires
            self.wf(),
            self.written(d, lo, hi),
        ensures
            self.holds(),
        decreases self,
    {
        if let EWState::OpState { op, left, right } = self.state {
            let end = lo + self.length - 1;
            let mid = end - right.length;
            left.lemma_written_holds(d, lo, mid);
            right.lemma_written_holds(d, mid, end);
        }
    }

    /// A writer's state fixes the bytes it wrote.
    proof fn lemma_written_determines(&self, d1: Seq<u8>, d2: Seq<u8>, lo: int, hi: int)
        requires
            self.wf(),
            self.written(d1, lo, hi),
            self.written(d2, lo, hi),
            0 <= lo,
            lo + self.length <= hi,
            hi <= d1.len(),
            hi <= d2.len(),
        ensures
            forall|i: int| lo <= i < hi ==> d1[i] == d2[i],
        decreases self,
    {
        if let EWState::OpState { op, left, right } = self.state {
            let end = lo + self.length - 1;
            let mid = end - right.length;
            left.lemma_written_determines(d1, d2, lo, mid);
            right.lemma_written_determines(d1, d2, mid, end);
        }
    }

    /// Two states of one shape that hold expressions and have the same rank
    /// are the same state.
    proof fn lemma_rank_injective(&self, other: &Self)
        requires
            self.wf(),
            other.wf(),
            self.holds(),
            other.holds(),
            other.same_shape(self),
            self.rank() == other.rank(),
        ensures
            *self == *other,
        decreases self,
    {
        let s = block(self.length as nat);
        match (self.state, other.state) {
            (
                EWState::OpState { op: op1, left: l1, right: r1 },
                EWState::OpState { op: op2, left: l2, right: r2 },
            ) => {
                self.lemma_op_window();
                other.lemma_op_window();
                if ops_after(op1) < ops_after(op2) {
                    assert(ops_after(op1) * (2 * s) + s <= ops_after(op2) * (2 * s)) by (
                    nonlinear_arith)
                        requires
                            ops_after(op1) + 1 <= ops_after(op2),
                    ;
                }
                if ops_after(op2) < ops_after(op1) {
                    assert(ops_after(op2) * (2 * s) + s <= ops_after(op1) * (2 * s)) by (
                    nonlinear_arith)
                        requires
                            ops_after(op2) + 1 <= ops_after(op1),
                    ;
                }
                assert(op1 == op2);
                let b = bound((self.length - 1) as nat);
                lemma_triple(
                    r1.length as nat,
                    l1.rank(),
                    r1.rank(),
                    r2.length as nat,
                    l2.rank(),
                    r2.rank(),
                    b,
                );
                if op1.arity() == 1 {
                    assert(l1.wf() && l2.wf());
                    assert(l1.state is Dummy && l2.state is Dummy);
                    assert(l1.vum_of_last_write == l2.vum_of_last_write);
                    assert(l1.required_vars == l2.required_vars);
                    assert(l1.length == l2.length);
                    assert(*l1 == *l2);
                } else {
                    l1.lemma_rank_injective(&*l2);
                }
                r1.lemma_rank_injective(&*r2);
                assert(self.state == other.state);
            },
            (EWState::OpState { .. }, _) => {
                self.lemma_op_window();
            },
            (_, EWState::OpState { .. }) => {
                other.lemma_op_window();
            },
            (EWState::Variable { next: n1, max: m1 }, EWState::Variable { next: n2, max: m2 }) => {
                if self.required_vars != 0 {
                    let a = m1 as u64;
                    let c = m2 as u64;
                    assert((1u64 << a) == (1u64 << c) && a < 64 && c < 64 ==> a == c) by (
                    bit_vector);
                }
                assert(self.state == other.state);
            },
            _ => {},
        }
    }

    /// A state that holds an expression used every variable it had to,
    /// and at most one variable for each two characters.
    proof fn lemma_holds_vars(&self)
        requires
            self.wf(),
            self.holds(),
            !(self.state is Dummy),
        ensures
            self.required_vars & !self.vum_of_last_write == 0u64,
            2 * popcount(self.vum_of_last_write as nat) <= self.length + 1,
        decreases self,
    {
        let rq = self.required_vars;
        let v = self.vum_of_last_write;
        match self.state {
            EWState::Variable { next, max } => {
                let k = (next - 1) as u64;
                lemma_popcount_pow(k);
                if rq != 0 {
                    assert(rq & !v == 0u64) by (bit_vector)
                        requires
                            rq == v,
                    ;
                } else {
                    assert(rq & !v == 0u64) by (bit_vector)
                        requires
                            rq == 0u64,
                    ;
                }
            },
            EWState::Constant { .. } => {
                assert(rq & !v == 0u64) by (bit_vector)
                    requires
                        rq == 0u64,
                ;
            },
            EWState::OpState { op, left, right } => {
                right.lemma_holds_vars();
                let lv = left.vum_of_last_write;
                let rv = right.vum_of_last_write;
                let rr = right.required_vars;
                if op.arity() == 1 {
                    assert(left.wf());
                    assert(left.state is Dummy);
                    assert(lv == 0u64);
                    assert(v == rv && rq & !v == 0u64) by (bit_vector)
                        requires
                            v == lv | rv,
                            lv == 0u64,
                            rr == rq,
                            rr & !rv == 0u64,
                    ;
                } else {
                    left.lemma_holds_vars();
                    lemma_popcount_or(lv, rv);
                    assert(rq & !v == 0u64) by (bit_vector)
                        requires
                            v == lv | rv,
                            rr == rq & !lv,
                            rr & !rv == 0u64,
                    ;
                }
            },
            _ => {},
        }
    }
}

impl ExpressionWriter {
    /// The kind and rank of a state that holds an expression of a writer's
    /// shape.
    proof fn lemma_candidate_kind(&self, w: ExpressionWriter)
        requires
            self.wf(),
            !(self.state is Dummy),
            self.candidate(w),
        ensures
            w.rank() < self.top_rank(),
            w.state is Variable || w.state is Constant || w.state is OpState,
            w.state is Variable ==> w.length == 1 && w.rank() >= 24 * block(w.length as nat) + 300,
            w.state is Constant ==> {
                &&& self.required_vars == 0
                &&& w.length <= 3
                &&& 24 * block(w.length as nat) + 100 <= w.rank()
                &&& w.rank() <= 24 * block(w.length as nat) + 255
            },
            w.state matches EWState::OpState { op, left, right } ==> {
                &&& w.length >= wasted(op, self.min_prec) + op.arity()
                &&& (op != Op::NEG || self.op_requirement == Some(Some(Op::NEG)))
                &&& ops_after(op) * (2 * block(w.length as nat)) <= w.rank()
                &&& w.rank() < ops_after(op) * (2 * block(w.length as nat)) + block(
                    w.length as nat,
                )
                &&& w.rank() < 23 * block(w.length as nat)
            },
    {
        lemma_bound_mono(self.length as nat, self.length as nat);
        if let EWState::OpState { op, left, right } = w.state {
            w.lemma_op_window();
            assert(right.wf());
            if op.arity() == 2 {
                assert(left.wf());
            }
        }
    }

    /// States of one shape have the same candidates, so two stretches of
    /// ranks without one, end to end, make one.
    proof fn lemma_none_join(&self, mid: &Self, lo: int, m: int, hi: int)
        requires
            mid.same_shape(self),
            mid.none_in(lo, m),
            self.none_in(m, hi),
        ensures
            self.none_in(lo, hi),
    {
        assert forall|w: ExpressionWriter| #[trigger] self.candidate(w) implies !(lo <= w.rank()
            < hi) by {
            assert(mid.candidate(w));
        }
    }

    /// A fresh writer with nothing to write has no candidate.
    proof fn lemma_barren_none(&self)
        requires
            self.wf(),
            self.state is Init,
            self.first_state_spec() is None,
        ensures
            self.none_in(0, self.rank() as int),
    {
        let req = self.required_vars;
        assert forall|w: ExpressionWriter| #[trigger] self.candidate(w) implies !(0 <= w.rank()
            < self.rank()) by {
            self.lemma_candidate_kind(w);
            if self.length + 1 < popcount(req as nat) * 2 {
                w.lemma_holds_vars();
                lemma_popcount_subset(req, w.vum_of_last_write);
            }
        }
    }

    /// Before its first write a writer moves to a state above every state
    /// that holds one of its expressions.
    proof fn lemma_first_state_top(&self, mid: ExpressionWriter)
        requires
            self.wf(),
            self.state is Init,
            self.first_state_spec() is Some,
            mid.same_shape(self),
            mid.state == self.first_state_spec().unwrap(),
        ensures
            self.none_in(mid.rank() as int, self.rank() as int),
    {
        let s = block(self.length as nat);
        lemma_bound_mono(self.length as nat, self.length as nat);
        let req = self.required_vars;
        if self.length == 1 && req != 0 {
            self.lemma_trailing_zero_below(req);
        }
        assert forall|w: ExpressionWriter| #[trigger] self.candidate(w) implies !(mid.rank()
            <= w.rank() < self.rank()) by {
            self.lemma_candidate_kind(w);
            if let EWState::Variable { next: n2, max: m2 } = w.state {
                if req != 0 {
                    let t = req.trailing_zeros() as u64;
                    let a = m2 as u64;
                    assert((1u64 << a) == (1u64 << t) && a < 64 && t < 64 ==> a == t) by (
                    bit_vector);
                }
            }
            if let EWState::OpState { op, .. } = w.state {
                if op != Op::NEG {
                    assert(ops_after(op) * (2 * s) + s <= 21 * s) by (nonlinear_arith)
                        requires
                            ops_after(op) <= 10,
                    ;
                }
            }
        }
    }

    /// Once a writer of length 1 is past its last variable, no variable
    /// is left: the candidates below it are the constants.
    proof fn lemma_variables_done(&self, lo: int)
        requires
            self.wf(),
            self.state matches EWState::Variable { next, max } && next > max,
            (lo == 0 && self.required_vars != 0) || lo == 24 * block(self.length as nat) + 256,
        ensures
            self.none_in(lo, self.rank() as int),
    {
        assert forall|w: ExpressionWriter| #[trigger] self.candidate(w) implies !(lo <= w.rank()
            < self.rank()) by {
            self.lemma_candidate_kind(w);
            if let (EWState::Variable { next: n2, max: m2 }, EWState::Variable { next, max }) = (
                w.state,
                self.state,
            ) {
                if self.required_vars != 0 {
                    let a = m2 as u64;
                    let c = max as u64;
                    assert((1u64 << a) == (1u64 << c) && a < 64 && c < 64 ==> a == c) by (
                    bit_vector);
                }
            }
        }
    }

    /// Once a writer is past its last constant, no constant is left: the
    /// candidates below it are the operators'.
    proof fn lemma_constants_done(&self, lo: int)
        requires
            self.wf(),
            self.follows_requirement(),
            self.state matches EWState::Constant { next, max } && next >= max,
            (lo == 0 && self.op_requirement is Some) || lo == 21 * block(self.length as nat),
        ensures
            self.none_in(lo, self.rank() as int),
    {
        let s = block(self.length as nat);
        lemma_bound_mono(self.length as nat, self.length as nat);
        assert forall|w: ExpressionWriter| #[trigger] self.candidate(w) implies !(lo <= w.rank()
            < self.rank()) by {
            self.lemma_candidate_kind(w);
            if let EWState::OpState { op, .. } = w.state {
                if op != Op::NEG {
                    assert(ops_after(op) * (2 * s) + s <= 21 * s) by (nonlinear_arith)
                        requires
                            ops_after(op) <= 10,
                    ;
                }
            }
        }
    }

    /// An operator that does not fit the length has no expression.
    proof fn lemma_op_unfit(&self, lo: int)
        requires
            self.wf(),
            self.follows_requirement(),
            self.state matches EWState::PrepareOp { op } && {
                &&& wasted(op, self.min_prec) + op.arity() > self.length
                &&& (lo == 0 && (op.next() is None || self.op_requirement is Some)) || (
                op.next() matches Some(next) && lo == ops_after(next) * (2 * block(
                    self.length as nat,
                )) + block(self.length as nat))
            },
        ensures
            self.none_in(lo, self.rank() as int),
    {
        let s = block(self.length as nat);
        lemma_bound_mono(self.length as nat, self.length as nat);
        if let EWState::PrepareOp { op } = self.state {
            assert(ops_after(op) * (2 * s) + s <= 23 * s) by (nonlinear_arith)
                requires
                    ops_after(op) <= 11,
            ;
            assert forall|w: ExpressionWriter| #[trigger] self.candidate(w) implies !(lo
                <= w.rank() < self.rank()) by {
                self.lemma_candidate_kind(w);
                if let EWState::OpState { op: op2, .. } = w.state {
                    if ops_after(op2) > ops_after(op) {
                        assert(ops_after(op) * (2 * s) + 2 * s <= ops_after(op2) * (2 * s)) by (
                        nonlinear_arith)
                            requires
                                ops_after(op) + 1 <= ops_after(op2),
                        ;
                    }
                    if ops_after(op2) < ops_after(op) && op.next() is Some {
                        let next = op.next().unwrap();
                        assert(ops_after(next) + 1 == ops_after(op));
                        assert(ops_after(op2) * (2 * s) + s <= ops_after(next) * (2 * s) + s) by (
                        nonlinear_arith)
                            requires
                                ops_after(op2) <= ops_after(next),
                        ;
                    }
                    if ops_after(op2) == ops_after(op) {
                        assert(op2 == op);
                    }
                }
            }
        }
    }

    /// An operator's first state, with fresh operands, lies above every
    /// state that holds one of its expressions.
    proof fn lemma_op_fresh_top(&self, mid: ExpressionWriter)
        requires
            self.wf(),
            self.follows_requirement(),
            mid.wf(),
            mid.same_shape(self),
            self.state matches EWState::PrepareOp { op } && mid.state matches EWState::OpState {
                op: o,
                left,
                right,
            } && o == op && (left.state is Init || left.state is Dummy) && right.state is Init
                && (op.arity() == 2 ==> left.length == 1),
        ensures
            self.none_in(mid.rank() as int, self.rank() as int),
    {
        let s = block(self.length as nat);
        let b = bound((self.length - 1) as nat);
        lemma_bound_mono(self.length as nat, self.length as nat);
        mid.lemma_op_window();
        if let (EWState::PrepareOp { op }, EWState::OpState { op: o, left, right }) = (
            self.state,
            mid.state,
        ) {
            assert forall|w: ExpressionWriter| #[trigger] self.candidate(w) implies !(mid.rank()
                <= w.rank() < self.rank()) by {
                self.lemma_candidate_kind(w);
                if let EWState::OpState { op: op2, left: l2, right: r2 } = w.state {
                    w.lemma_op_window();
                    if ops_after(op2) > ops_after(op) {
                        assert(ops_after(op) * (2 * s) + 2 * s <= ops_after(op2) * (2 * s)) by (
                        nonlinear_arith)
                            requires
                                ops_after(op) + 1 <= ops_after(op2),
                        ;
                    } else if ops_after(op2) < ops_after(op) {
                        assert(ops_after(op2) * (2 * s) + 2 * s <= ops_after(op) * (2 * s)) by (
                        nonlinear_arith)
                            requires
                                ops_after(op2) + 1 <= ops_after(op),
                        ;
                    } else {
                        assert(op2 == op);
                        assert(r2.wf());
                        assert(l2.wf());
                        if op.arity() == 2 {
                            if l2.length == 1 {
                                assert(left.candidate(*l2));
                                left.lemma_candidate_kind(*l2);
                            }
                        } else {
                            assert(left.wf());
                            assert(right.candidate(*r2));
                            right.lemma_candidate_kind(*r2);
                        }
                        lemma_triple(
                            r2.length as nat,
                            l2.rank(),
                            r2.rank(),
                            right.length as nat,
                            left.rank(),
                            right.rank(),
                            b,
                        );
                    }
                }
            }
        }
    }
}

/// The windows of two operators lie apart.
proof fn lemma_windows_apart(oa: nat, ob: nat, s: nat)
    ensures
        oa < ob ==> oa * (2 * s) + 2 * s <= ob * (2 * s),
{
    if oa < ob {
        assert(oa * (2 * s) + 2 * s <= ob * (2 * s)) by (nonlinear_arith)
            requires
                oa + 1 <= ob,
        ;
    }
}

impl ExpressionWriter {
    /// A fresh operand with no variable required has something to write.
    proof fn lemma_fresh_has_candidate(&self)
        requires
            self.wf(),
            self.state is Init,
            self.required_vars == 0,
            self.op_requirement is None,
        ensures
            !self.none_in(0, self.rank() as int),
    {
        lemma_chain(self.input_count, self.constant_cap, self.length, self.min_prec, 0);
        let c = chain(self.input_count, self.constant_cap, self.length, self.min_prec, 0);
        assert(self.candidate(c));
        self.lemma_candidate_kind(c);
    }

    /// An operator state's operands after some steps of its writing:
    /// `left1` is the left operand then, `right1` the right one, with the
    /// variables it must use for that left operand.
    spec fn moved(&self, left1: ExpressionWriter, right1: ExpressionWriter) -> bool {
        match self.state {
            EWState::OpState { op, left, right } => {
                &&& left1.wf()
                &&& left1.holds()
                &&& left1.same_shape(&*left)
                &&& left.state is Init ==> left.none_in(left1.rank() + 1int, left.rank() as int)
                &&& !(left.state is Init) ==> left1 == *left
                &&& right1.wf()
                &&& right1.length == right.length
                &&& right1.input_count == right.input_count
                &&& right1.min_prec == right.min_prec
                &&& right1.constant_cap == right.constant_cap
                &&& right1.op_requirement is None
                &&& right1.required_vars == if op.arity() == 2 {
                    self.required_vars & !left1.vum_of_last_write
                } else {
                    self.required_vars
                }
                &&& right1.rank() == right.rank()
                &&& left.state is Init ==> right1.state is Init
            },
            _ => false,
        }
    }

    /// A candidate of an operator state's shape at the same operator and
    /// split, below it: its left operand is no further along than `left1`,
    /// and where it is `left1`, its right operand is a candidate of
    /// `right1` below it.
    proof fn lemma_same_split(&self, left1: ExpressionWriter, right1: ExpressionWriter, w: ExpressionWriter)
        requires
            self.wf(),
            self.moved(left1, right1),
            self.candidate(w),
            w.rank() < self.rank(),
            self.state matches EWState::OpState { op, right, .. } && w.state matches EWState::OpState {
                op: op2,
                right: r2,
                ..
            } && op2 == op && r2.length == right.length,
        ensures
            w.state matches EWState::OpState { left: l2, right: r2, .. } ==> {
                &&& l2.rank() <= left1.rank()
                &&& l2.rank() == left1.rank() ==> (*l2 == left1 && right1.candidate(*r2) && r2.rank()
                    < right1.rank())
            },
    {
        if let (EWState::OpState { op, left, right }, EWState::OpState { op: op2, left: l2, right: r2 }) = (
            self.state,
            w.state,
        ) {
            self.lemma_op_window();
            w.lemma_op_window();
            let b = bound((self.length - 1) as nat);
            lemma_triple(
                r2.length as nat,
                l2.rank(),
                r2.rank(),
                right.length as nat,
                left.rank(),
                right.rank(),
                b,
            );
            assert(l2.wf());
            assert(r2.wf());
            if op.arity() == 2 {
                assert(left.candidate(*l2));
                left.lemma_candidate_kind(*l2);
            } else {
                assert(left.wf());
                assert(l2.state is Dummy && left.state is Dummy);
            }
            if l2.rank() == left1.rank() {
                l2.lemma_rank_injective(&left1);
                assert(right1.candidate(*r2));
                if left.state is Init {
                    right1.lemma_candidate_kind(*r2);
                }
            }
        }
    }

    /// After the right operand wrote, no candidate lies between the new
    /// state and the old.
    proof fn lemma_op_after_right(
        &self,
        left1: ExpressionWriter,
        right1: ExpressionWriter,
        right2: ExpressionWriter,
        fin: ExpressionWriter,
    )
        requires
            self.wf(),
            self.moved(left1, right1),
            right1.none_in(right2.rank() + 1int, right1.rank() as int),
            right2.wf(),
            right2.same_shape(&right1),
            fin.wf(),
            fin.same_shape(self),
            self.state matches EWState::OpState { op, .. } && fin.state == (EWState::OpState {
                op,
                left: Box::new(left1),
                right: Box::new(right2),
            }),
        ensures
            self.none_in(fin.rank() + 1int, self.rank() as int),
    {
        let s = block(self.length as nat);
        let b = bound((self.length - 1) as nat);
        self.lemma_op_window();
        fin.lemma_op_window();
        if let EWState::OpState { op, left, right } = self.state {
            assert forall|w: ExpressionWriter| #[trigger] self.candidate(w) implies !(fin.rank()
                + 1 <= w.rank() < self.rank()) by {
                self.lemma_candidate_kind(w);
                if let EWState::OpState { op: op2, left: l2, right: r2 } = w.state {
                    w.lemma_op_window();
                    lemma_windows_apart(ops_after(op), ops_after(op2), s);
                    lemma_windows_apart(ops_after(op2), ops_after(op), s);
                    if op2 == op && fin.rank() < w.rank() && w.rank() < self.rank() {
                        lemma_triple(
                            r2.length as nat,
                            l2.rank(),
                            r2.rank(),
                            right.length as nat,
                            left.rank(),
                            right.rank(),
                            b,
                        );
                        lemma_triple(
                            right2.length as nat,
                            left1.rank(),
                            right2.rank(),
                            r2.length as nat,
                            l2.rank(),
                            r2.rank(),
                            b,
                        );
                        self.lemma_same_split(left1, right1, w);
                    }
                }
            }
        }
    }

    /// After the right operand ran out and the left one moved on, no
    /// candidate lies between the new state, with a fresh right operand,
    /// and the old.
    proof fn lemma_op_after_left(
        &self,
        left1: ExpressionWriter,
        right1: ExpressionWriter,
        left2: ExpressionWriter,
        mid: ExpressionWriter,
    )
        requires
            self.wf(),
            self.moved(left1, right1),
            right1.none_in(0, right1.rank() as int),
            left1.none_in(left2.rank() + 1int, left1.rank() as int),
            left2.wf(),
            left2.holds(),
            left2.same_shape(&left1),
            mid.wf(),
            mid.same_shape(self),
            self.state matches EWState::OpState { op, right, .. }
                && mid.state matches EWState::OpState { op: o, left: lm, right: rm } && op.arity() == 2 && o == op
                && *lm == left2 && rm.state is Init && rm.length == right.length
                && rm.required_vars == self.required_vars & !left2.vum_of_last_write,
        ensures
            self.none_in(mid.rank() as int, self.rank() as int),
    {
        let s = block(self.length as nat);
        let b = bound((self.length - 1) as nat);
        self.lemma_op_window();
        mid.lemma_op_window();
        if let (EWState::OpState { op, left, right }, EWState::OpState { left: lm, right: rm, .. }) = (
            self.state,
            mid.state,
        ) {
            assert forall|w: ExpressionWriter| #[trigger] self.candidate(w) implies !(mid.rank()
                <= w.rank() < self.rank()) by {
                self.lemma_candidate_kind(w);
                if let EWState::OpState { op: op2, left: l2, right: r2 } = w.state {
                    w.lemma_op_window();
                    lemma_windows_apart(ops_after(op), ops_after(op2), s);
                    lemma_windows_apart(ops_after(op2), ops_after(op), s);
                    if op2 == op && mid.rank() <= w.rank() && w.rank() < self.rank() {
                        lemma_triple(
                            r2.length as nat,
                            l2.rank(),
                            r2.rank(),
                            right.length as nat,
                            left.rank(),
                            right.rank(),
                            b,
                        );
                        lemma_triple(
                            rm.length as nat,
                            lm.rank(),
                            rm.rank(),
                            r2.length as nat,
                            l2.rank(),
                            r2.rank(),
                            b,
                        );
                        self.lemma_same_split(left1, right1, w);
                        assert(l2.wf());
                        assert(left1.candidate(*l2));
                        if l2.rank() == left2.rank() {
                            l2.lemma_rank_injective(&left2);
                            assert(r2.wf());
                            assert(rm.candidate(*r2));
                            rm.lemma_candidate_kind(*r2);
                        }
                    }
                }
            }
        }
    }

    /// After both operands ran out at a split, no candidate lies between
    /// the next split's first state and the old one.
    proof fn lemma_op_shift(&self, left1: ExpressionWriter, right1: ExpressionWriter, mid: ExpressionWriter)
        requires
            self.wf(),
            self.moved(left1, right1),
            right1.none_in(0, right1.rank() as int),
            left1.none_in(0, left1.rank() as int),
            mid.wf(),
            mid.same_shape(self),
            self.state matches EWState::OpState { op, left, right }
                && mid.state matches EWState::OpState { op: o, left: lm, right: rm } && op.arity() == 2 && o == op
                && lm.state is Init && rm.state is Init && rm.length + 1 == right.length
                && lm.length == left.length + 1,
        ensures
            self.none_in(mid.rank() as int, self.rank() as int),
    {
        let s = block(self.length as nat);
        let b = bound((self.length - 1) as nat);
        self.lemma_op_window();
        mid.lemma_op_window();
        if let (EWState::OpState { op, left, right }, EWState::OpState { left: lm, right: rm, .. }) = (
            self.state,
            mid.state,
        ) {
            assert forall|w: ExpressionWriter| #[trigger] self.candidate(w) implies !(mid.rank()
                <= w.rank() < self.rank()) by {
                self.lemma_candidate_kind(w);
                if let EWState::OpState { op: op2, left: l2, right: r2 } = w.state {
                    w.lemma_op_window();
                    lemma_windows_apart(ops_after(op), ops_after(op2), s);
                    lemma_windows_apart(ops_after(op2), ops_after(op), s);
                    if op2 == op && mid.rank() <= w.rank() && w.rank() < self.rank() {
                        lemma_triple(
                            r2.length as nat,
                            l2.rank(),
                            r2.rank(),
                            right.length as nat,
                            left.rank(),
                            right.rank(),
                            b,
                        );
                        lemma_triple(
                            rm.length as nat,
                            lm.rank(),
                            rm.rank(),
                            r2.length as nat,
                            l2.rank(),
                            r2.rank(),
                            b,
                        );
                        assert(l2.wf());
                        if r2.length == right.length {
                            self.lemma_same_split(left1, right1, w);
                            assert(left1.candidate(*l2));
                        } else {
                            assert(lm.candidate(*l2));
                            lm.lemma_candidate_kind(*l2);
                        }
                    }
                }
            }
        }
    }

    /// After both operands ran out at the last split of an operator, no
    /// candidate of that operator is left.
    proof fn lemma_op_exhausted(&self, left1: ExpressionWriter, right1: ExpressionWriter, lo: int)
        requires
            self.wf(),
            self.follows_requirement(),
            self.moved(left1, right1),
            right1.none_in(0, right1.rank() as int),
            left1.none_in(0, left1.rank() as int),
            self.state matches EWState::OpState { op, left, right } && {
                &&& op.arity() == 2 ==> right.length == 1
                &&& (lo == 0 && (op.next() is None || self.op_requirement is Some)) || (
                op.next() matches Some(next) && lo == ops_after(next) * (2 * block(
                    self.length as nat,
                )) + block(self.length as nat))
            },
        ensures
            self.none_in(lo, self.rank() as int),
    {
        let s = block(self.length as nat);
        let b = bound((self.length - 1) as nat);
        self.lemma_op_window();
        if let EWState::OpState { op, left, right } = self.state {
            assert forall|w: ExpressionWriter| #[trigger] self.candidate(w) implies !(lo <= w.rank()
                < self.rank()) by {
                self.lemma_candidate_kind(w);
                if let EWState::OpState { op: op2, left: l2, right: r2 } = w.state {
                    w.lemma_op_window();
                    lemma_windows_apart(ops_after(op), ops_after(op2), s);
                    lemma_windows_apart(ops_after(op2), ops_after(op), s);
                    if op.next() is Some {
                        let next = op.next().unwrap();
                        assert(ops_after(next) + 1 == ops_after(op));
                        lemma_windows_apart(ops_after(op2), ops_after(next), s);
                    }
                    if ops_after(op2) == ops_after(op) && w.rank() < self.rank() {
                        assert(op2 == op);
                        assert(r2.wf());
                        lemma_triple(
                            r2.length as nat,
                            l2.rank(),
                            r2.rank(),
                            right.length as nat,
                            left.rank(),
                            right.rank(),
                            b,
                        );
                        self.lemma_same_split(left1, right1, w);
                        assert(l2.wf());
                        if op.arity() == 2 {
                            assert(left1.candidate(*l2));
                        }
                    }
                }
            }
        }
    }
}

impl ExpressionWriter {
    /// The expressions the writer has still to write, as the bytes of
    /// their `len_spec()` characters: those that a state of its shape holds
    /// which comes after its own.
    pub closed spec fn remaining(&self) -> Set<Seq<u8>> {
        Set::new(
            |x: Seq<u8>|
                x.len() == self.length && exists|w: ExpressionWriter|
                    #[trigger] self.candidate(w) && w.rank() < self.rank() && w.written(
                        x,
                        0,
                        x.len() as int,
                    ),
        )
    }

    /// What a writer wrote over `d[lo..hi]` it wrote over the same bytes of
    /// any other sequence, and over a shorter region that still holds it.
    proof fn lemma_written_sub(&self, d: Seq<u8>, e: Seq<u8>, lo: int, hi: int, hi2: int)
        requires
            self.wf(),
            self.written(d, lo, hi),
            0 <= lo,
            lo + self.length <= hi2 <= hi,
            hi2 <= e.len(),
            hi <= d.len(),
            forall|i: int| lo <= i < hi2 ==> e[i] == d[i],
        ensures
            self.written(e, lo, hi2),
        decreases self,
    {
        if let EWState::OpState { op, left, right } = self.state {
            let end = lo + self.length - 1;
            let mid = end - right.length;
            left.lemma_written_sub(d, e, lo, mid, mid);
            right.lemma_written_sub(d, e, mid, end, end);
        }
    }

    /// After what a writer wrote, its region holds only no-ops.
    proof fn lemma_written_tail(&self, d: Seq<u8>, lo: int, hi: int)
        requires
            self.wf(),
            self.written(d, lo, hi),
            !(self.state is Dummy),
        ensures
            forall|i: int| lo + self.length <= i < hi ==> d[i] == 255u8,
    {
    }

    /// The last byte of what a writer wrote is its operator's, or an atom's.
    proof fn lemma_written_top(&self, d: Seq<u8>, lo: int, hi: int)
        requires
            self.wf(),
            self.written(d, lo, hi),
            !(self.state is Dummy),
        ensures
            self.state matches EWState::OpState { op, .. } ==> d[lo + self.length - 1] == op.code()
                && op_of_code(op.code()) == op,
            !(self.state is OpState) ==> d[lo + self.length - 1] < 243,
    {
    }

    /// One write takes exactly the expression it wrote out of what the
    /// writer has left.
    proof fn lemma_remaining_step(&self, fin: &Self, d: Seq<u8>)
        requires
            self.wf(),
            fin.wf(),
            !(self.state is Dummy),
            fin.follows_requirement(),
            fin.same_shape(self),
            fin.rank() < self.rank(),
            self.length <= d.len(),
            fin.written(d, 0, d.len() as int),
            self.none_in(fin.rank() + 1int, self.rank() as int),
        ensures
            self.remaining().contains(d.subrange(0, self.length as int)),
            fin.remaining() == self.remaining().remove(d.subrange(0, self.length as int)),
            forall|z: Seq<u8>|
                #[trigger] fin.remaining().contains(z) ==> top_order(z) >= top_order(
                    d.subrange(0, self.length as int),
                ),
            self.is_top() && self.requires_all_vars() ==> forall|z: Seq<u8>|
                #[trigger] fin.remaining().contains(z) ==> expression_key(
                    self.input_count,
                    self.length,
                    self.constant_cap,
                    z,
                ) < expression_key(
                    self.input_count,
                    self.length,
                    self.constant_cap,
                    d.subrange(0, self.length as int),
                ),
    {
        let n = self.length as int;
        let x = d.subrange(0, n);
        let s = block(self.length as nat);
        if self.is_top() && self.requires_all_vars() {
            fin.lemma_written_sub(d, x, 0, d.len() as int, n);
            fin.lemma_written_holds(d, 0, d.len() as int);
            lemma_key_of(*fin, x);
            assert forall|z: Seq<u8>| #[trigger] fin.remaining().contains(z) implies expression_key(
                self.input_count,
                self.length,
                self.constant_cap,
                z,
            ) < expression_key(self.input_count, self.length, self.constant_cap, x) by {
                let w = choose|w: ExpressionWriter|
                    #[trigger] fin.candidate(w) && w.rank() < fin.rank() && w.written(
                        z,
                        0,
                        z.len() as int,
                    );
                lemma_key_of(w, z);
            }
        }
        assert forall|z: Seq<u8>| #[trigger] fin.remaining().contains(z) implies top_order(z)
            >= top_order(x) by {
            let w = choose|w: ExpressionWriter|
                #[trigger] fin.candidate(w) && w.rank() < fin.rank() && w.written(
                    z,
                    0,
                    z.len() as int,
                );
            fin.lemma_written_sub(d, x, 0, d.len() as int, n);
            assert(self.candidate(w));
            fin.lemma_written_holds(d, 0, d.len() as int);
            assert(self.candidate(*fin));
            self.lemma_candidate_kind(w);
            self.lemma_candidate_kind(*fin);
            w.lemma_written_top(z, 0, n);
            fin.lemma_written_top(x, 0, n);
            if let (EWState::OpState { op: a, .. }, EWState::OpState { op: b, .. }) = (
                w.state,
                fin.state,
            ) {
                lemma_windows_apart(ops_after(b), ops_after(a), s);
            }
        }
        fin.lemma_written_sub(d, x, 0, d.len() as int, n);
        fin.lemma_written_holds(d, 0, d.len() as int);
        assert(self.candidate(*fin));
        assert(self.remaining().contains(x));
        assert forall|y: Seq<u8>| fin.remaining().contains(y) implies self.remaining().remove(
            x,
        ).contains(y) by {
            let w = choose|w: ExpressionWriter|
                #[trigger] fin.candidate(w) && w.rank() < fin.rank() && w.written(
                    y,
                    0,
                    y.len() as int,
                );
            assert(self.candidate(w));
            if y == x {
                w.lemma_same_rank(fin, y, 0, y.len() as int, y.len() as int);
            }
        }
        assert forall|y: Seq<u8>| self.remaining().remove(x).contains(y) implies fin.remaining().contains(
            y,
        ) by {
            let w = choose|w: ExpressionWriter|
                #[trigger] self.candidate(w) && w.rank() < self.rank() && w.written(
                    y,
                    0,
                    y.len() as int,
                );
            assert(fin.candidate(w));
            if w.rank() == fin.rank() {
                w.lemma_rank_injective(fin);
                w.lemma_written_determines(y, x, 0, n);
                assert(y =~= x);
            }
        }
        assert(fin.remaining() =~= self.remaining().remove(x));
    }

    /// A writer with no candidate below its state has nothing left.
    proof fn lemma_remaining_empty(&self)
        requires
            self.none_in(0, self.rank() as int),
        ensures
            self.remaining().is_empty(),
    {
        assert forall|y: Seq<u8>| !self.remaining().contains(y) by {
            if self.remaining().contains(y) {
                let w = choose|w: ExpressionWriter|
                    #[trigger] self.candidate(w) && w.rank() < self.rank() && w.written(
                        y,
                        0,
                        y.len() as int,
                    );
                assert(self.candidate(w));
            }
        }
        assert(self.remaining() =~= Set::empty());
    }

    /// A fresh writer has all the expressions of its shape left.
    proof fn lemma_fresh_remaining(&self)
        requires
            self.wf(),
            self.state is Init,
            self.is_top(),
            self.requires_all_vars(),
        ensures
            self.remaining() == expression_set(
                self.input_count,
                self.length,
                self.constant_cap,
                self.op_requirement,
            ),
    {
        let e = expression_set(self.input_count, self.length, self.constant_cap, self.op_requirement);
        assert forall|x: Seq<u8>| self.remaining().contains(x) == e.contains(x) by {
            if self.remaining().contains(x) {
                let w = choose|w: ExpressionWriter|
                    #[trigger] self.candidate(w) && w.rank() < self.rank() && w.written(
                        x,
                        0,
                        x.len() as int,
                    );
                assert(w.holds() && w.is_top() && w.requires_all_vars());
            }
            if e.contains(x) {
                let w = choose|w: ExpressionWriter|
                    #[trigger] w.holds() && w.wf() && w.is_top() && w.requires_all_vars()
                        && w.input_count == self.input_count && w.length == self.length
                        && w.constant_cap == self.constant_cap && w.op_requirement
                        == self.op_requirement && w.follows_requirement() && w.written(
                        x,
                        0,
                        self.length as int,
                    );
                assert(w.required_vars == self.required_vars);
                assert(self.candidate(w));
                self.lemma_candidate_kind(w);
            }
        }
        assert(self.remaining() =~= e);
    }
}

/// The place of an expression in the order in which a writer of its
/// length writes: the rank of the state that holds it (the same for every
/// such state); a writer writes its expressions from the greatest key down.
pub closed spec fn expression_key(input_count: u8, length: usize, cap: u8, x: Seq<u8>) -> int {
    (choose|w: ExpressionWriter|
        #[trigger] w.holds() && w.wf() && w.is_top() && w.requires_all_vars() && w.input_count
            == input_count && w.length == length && w.constant_cap == cap && w.written(
            x,
            0,
            length as int,
        )).rank() as int
}

/// The key of an expression is the rank of any top state that holds it.
proof fn lemma_key_of(w: ExpressionWriter, x: Seq<u8>)
    requires
        w.holds(),
        w.wf(),
        w.is_top(),
        w.requires_all_vars(),
        1 <= w.length,
        w.written(x, 0, w.length as int),
    ensures
        expression_key(w.input_count, w.length, w.constant_cap, x) == w.rank(),
{
    let w0 = choose|w0: ExpressionWriter|
        #[trigger] w0.holds() && w0.wf() && w0.is_top() && w0.requires_all_vars()
            && w0.input_count == w.input_count && w0.length == w.length && w0.constant_cap
            == w.constant_cap && w0.written(x, 0, w.length as int);
    assert(w.holds() && w.wf() && w.is_top() && w.requires_all_vars());
    w0.lemma_same_rank(&w, x, 0, w.length as int, w.length as int);
}

/// Every expression of `length` characters over `input_count` variables,
/// each of which appears, with constants below `constant_cap` and a
/// top-level operator that meets `op_requirement` (none, `Some(None)` for
/// an atom, or the given operator): the bytes of its characters, as a
/// writer of that shape holds them in one of its states.
pub closed spec fn expression_set(
    input_count: u8,
    length: usize,
    constant_cap: u8,
    op_requirement: Option<Option<Op>>,
) -> Set<Seq<u8>> {
    Set::new(
        |x: Seq<u8>|
            x.len() == length && exists|w: ExpressionWriter|
                #[trigger] w.holds() && w.wf() && w.is_top() && w.requires_all_vars()
                    && w.input_count == input_count && w.length == length && w.constant_cap
                    == constant_cap && w.op_requirement == op_requirement
                    && w.follows_requirement() && w.written(x, 0, length as int),
    )
}

/// The task that covers a top-level operator, and where among the task's
/// operators it stands.
pub open spec fn task_of(top: Option<Op>) -> (WriterType, int) {
    match top {
        None => (WriterType::ConstVar, 0),
        Some(Op::NOT) | Some(Op::NEG) => (WriterType::Neg, 0),
        Some(Op::MUL) => (WriterType::Mul, 0),
        Some(Op::DIV) => (WriterType::Mul, 1),
        Some(Op::MOD) => (WriterType::Mul, 2),
        Some(Op::ADD) => (WriterType::Add, 0),
        Some(Op::SUB) => (WriterType::Add, 1),
        Some(Op::LSL) => (WriterType::Shift, 0),
        Some(Op::LSR) => (WriterType::Shift, 1),
        Some(Op::AND) => (WriterType::And, 0),
        Some(Op::XOR) => (WriterType::Xor, 0),
        Some(Op::ORR) => (WriterType::Or, 0),
    }
}

/// The eight tasks together cover every expression of a length: an
/// expression with no requirement on its top-level operator is one of
/// some task, and every expression of a task is one with no requirement.
pub proof fn lemma_tasks_cover(input_count: u8, length: usize, cap: u8, x: Seq<u8>)
    requires
        1 <= length,
    ensures
        expression_set(input_count, length, cap, None).contains(x) <==> exists|wt: WriterType|
            #[trigger] task_set(input_count, length, cap, wt).contains(x),
{
    if expression_set(input_count, length, cap, None).contains(x) {
        let w = choose|w: ExpressionWriter|
            #[trigger] w.holds() && w.wf() && w.is_top() && w.requires_all_vars() && w.input_count
                == input_count && w.length == length && w.constant_cap == cap && w.op_requirement
                == None::<Option<Op>> && w.follows_requirement() && w.written(
                x,
                0,
                length as int,
            );
        let top: Option<Op> = match w.state {
            EWState::OpState { op, .. } => Some(op),
            _ => None,
        };
        let w2 = ExpressionWriter { op_requirement: Some(top), ..w };
        assert(w2.wf());
        assert(w2.holds());
        assert(w2.written(x, 0, length as int));
        assert(w2.follows_requirement());
        assert(expression_set(input_count, length, cap, Some(top)).contains(x));
        let (wt, j) = task_of(top);
        assert(task_ops_spec(wt)[j] == top);
        assert(task_set(input_count, length, cap, wt).contains(x));
    }
    if exists|wt: WriterType| #[trigger] task_set(input_count, length, cap, wt).contains(x) {
        let wt = choose|wt: WriterType| #[trigger] task_set(input_count, length, cap, wt).contains(x);
        let j = choose|j: int|
            0 <= j < task_ops_spec(wt).len() && #[trigger] expression_set(
                input_count,
                length,
                cap,
                Some(task_ops_spec(wt)[j]),
            ).contains(x);
        let top = task_ops_spec(wt)[j];
        let w = choose|w: ExpressionWriter|
            #[trigger] w.holds() && w.wf() && w.is_top() && w.requires_all_vars() && w.input_count
                == input_count && w.length == length && w.constant_cap == cap && w.op_requirement
                == Some(top) && w.follows_requirement() && w.written(x, 0, length as int);
        let w2 = ExpressionWriter { op_requirement: None, ..w };
        assert(top != Some(Op::NEG));
        assert(w2.wf());
        assert(w2.holds());
        assert(w2.written(x, 0, length as int));
        assert(expression_set(input_count, length, cap, None).contains(x));
    }
}

/// Every expression of a shape is a program that runs, over up to 13
/// inputs and 99 characters, whose text is exactly `length` characters, that
/// uses every input variable, whose constants are below the cap, and whose
/// last byte shows the required top-level operator.
pub proof fn lemma_expression_set_sound(
    input_count: u8,
    length: usize,
    cap: u8,
    top: Option<Option<Op>>,
    x: Seq<u8>,
)
    requires
        expression_set(input_count, length, cap, top).contains(x),
        1 <= length <= 99,
        input_count <= 13,
    ensures
        x.len() == length,
        runs_ok(x, input_count as nat),
        height_after(x) == 1,
        renderable(x),
        render_text(x).len() == length,
        forall|v: u64| v < input_count ==> uses_var(x, 0, length as int, v),
        forall|i: int| 0 <= i < length && x[i] <= 155 ==> x[i] < cap,
        top matches Some(t) ==> tagged(x, t),
        render_text(strip_nops(x)) == render_text(x),
        parse_chars(render_text(x), 0, render_text(x).len() as int) == Ok::<Seq<u8>, Seq<char>>(
            strip_nops(x),
        ),
{
    let w = choose|w: ExpressionWriter|
        #[trigger] w.holds() && w.wf() && w.is_top() && w.requires_all_vars() && w.input_count
            == input_count && w.length == length && w.constant_cap == cap && w.op_requirement
            == top && w.follows_requirement() && w.written(x, 0, length as int);
    lemma_written_runs_ok(&w, x);
    lemma_written_renders_to_length(&w, x);
    lemma_written_uses_all_vars(&w, x);
    lemma_written_constants_below_cap(&w, x);
    if top is Some {
        w.lemma_written_last_byte(x, 0, length as int);
    }
    assert forall|i: int| 0 <= i < x.len() implies is_valid_code(#[trigger] x[i]) by {
        assert(step_ok(height_after(x.take(i)), x[i], input_count as nat));
    }
    w.lemma_written_renders(x, 0, length as int);
    lemma_parse_to_string_with_nops(x);
}

/// A mask of the `k` lowest bits has `k` ones.
proof fn lemma_popcount_mask(k: u64)
    requires
        k <= 63,
    ensures
        popcount(((1u64 << k) - 1) as nat) == k,
    decreases k,
{
    let x = ((1u64 << k) - 1) as u64;
    assert((1u64 << k) >= 1u64) by (bit_vector)
        requires
            k <= 63,
    ;
    lemma_popcount_half(x);
    if k == 0 {
        assert(x == 0u64) by (bit_vector)
            requires
                x == (1u64 << k) - 1,
                k == 0,
        ;
    } else {
        let j = (k - 1) as u64;
        assert((x >> 1u64) == (1u64 << j) - 1 && x & 1u64 == 1u64) by (bit_vector)
            requires
                x == (1u64 << k) - 1,
                1 <= k <= 63,
                j + 1 == k,
        ;
        lemma_popcount_mask(j);
    }
}

/// With one input, every length has an expression, `!!…!a` among them:
/// a fresh writer of one input writes at least once.
pub proof fn lemma_one_input_has_expressions(length: usize, cap: u8)
    requires
        1 <= length < usize::MAX,
    ensures
        expression_set(1, length, cap, None).contains(chain_bytes(length as nat)),
{
    lemma_chain(1, cap, length, 0, 1);
    let w = chain(1, cap, length, 0, 1);
    lemma_word_facts();
    assert(w.requires_all_vars());
    assert(w.is_top());
    assert(w.follows_requirement());
    assert(chain_bytes(length as nat).len() == length);
}

/// Each input must appear, with an operator between two appearances: no
/// expression over `input_count` inputs is shorter than
/// `2 * input_count - 1` characters.
pub proof fn lemma_too_short(input_count: u8, length: usize, cap: u8, top: Option<Option<Op>>)
    requires
        1 <= input_count <= 63,
        length + 1 < 2 * input_count,
    ensures
        expression_set(input_count, length, cap, top) == Set::<Seq<u8>>::empty(),
{
    let e = expression_set(input_count, length, cap, top);
    assert forall|x: Seq<u8>| !e.contains(x) by {
        if e.contains(x) {
            let w = choose|w: ExpressionWriter|
                #[trigger] w.holds() && w.wf() && w.is_top() && w.requires_all_vars()
                    && w.input_count == input_count && w.length == length && w.constant_cap == cap
                    && w.op_requirement == top && w.follows_requirement() && w.written(
                    x,
                    0,
                    length as int,
                );
            let k = input_count as u64;
            let rq = w.required_vars;
            lemma_popcount_mask(k);
            assert(rq == ((1u64 << k) - 1) as u64 && (1u64 << k) != 1u64) by (bit_vector)
                requires
                    rq + 1 == 1u64 << k,
                    1 <= k <= 63,
            ;
            if !(w.state is Dummy) {
                w.lemma_holds_vars();
                lemma_popcount_subset(rq, w.vum_of_last_write);
            }
        }
    }
    assert(e =~= Set::<Seq<u8>>::empty());
}

/// The one expression of one character over one input is `a`.
pub proof fn lemma_one_input_length_one(cap: u8)
    ensures
        expression_set(1, 1, cap, None) == set![seq![242u8]],
{
    let e = expression_set(1, 1, cap, None);
    lemma_one_input_has_expressions(1, cap);
    assert(chain_bytes(1) =~= seq![242u8]);
    assert forall|x: Seq<u8>| e.contains(x) implies x == seq![242u8] by {
        let w = choose|w: ExpressionWriter|
            #[trigger] w.holds() && w.wf() && w.is_top() && w.requires_all_vars() && w.input_count
                == 1 && w.length == 1 && w.constant_cap == cap && w.op_requirement == None::<
                Option<Op>,
            > && w.follows_requirement() && w.written(x, 0, 1);
        let rq = w.required_vars;
        lemma_word_facts();
        assert(rq == 1u64);
        assert(w.candidate(w));
        w.lemma_candidate_kind(w);
        if let EWState::Variable { next, max } = w.state {
            let m = max as u64;
            assert(m == 0u64);
        }
        assert(x =~= seq![242u8]);
    }
    assert(e =~= set![seq![242u8]]);
}

/// The one expression of two characters over one input is `!a`.
pub proof fn lemma_one_input_length_two(cap: u8)
    ensures
        expression_set(1, 2, cap, None) == set![seq![242u8, 254u8]],
{
    let e = expression_set(1, 2, cap, None);
    lemma_one_input_has_expressions(2, cap);
    assert(chain_bytes(2) =~= seq![242u8, 254u8]);
    assert forall|x: Seq<u8>| e.contains(x) implies x == seq![242u8, 254u8] by {
        let w = choose|w: ExpressionWriter|
            #[trigger] w.holds() && w.wf() && w.is_top() && w.requires_all_vars() && w.input_count
                == 1 && w.length == 2 && w.constant_cap == cap && w.op_requirement == None::<
                Option<Op>,
            > && w.follows_requirement() && w.written(x, 0, 2);
        let rq = w.required_vars;
        lemma_word_facts();
        assert(rq == 1u64);
        assert(w.candidate(w));
        w.lemma_candidate_kind(w);
        assert(w.state is OpState);
        if let EWState::OpState { op, left, right } = w.state {
            assert(op == Op::NOT);
            assert(right.wf());
            assert(right.length == 1);
            assert(right.required_vars == 1u64);
            assert(right.candidate(*right));
            right.lemma_candidate_kind(*right);
            assert(right.state is Variable);
            assert(right.written(x, 0, 1));
            if let EWState::Variable { next, max } = right.state {
                let m = max as u64;
                assert(m == 0u64);
                assert(next == 1);
            }
            assert(x[0] == 242u8);
            assert(x[1] == 254u8);
        }
        assert(x =~= seq![242u8, 254u8]);
    }
    assert(e =~= set![seq![242u8, 254u8]]);
}

/// The bytes of `a+v`, with `v` a constant of `d` digits.
pub open spec fn sum_bytes(v: u8, d: nat) -> Seq<u8> {
    seq![242u8] + Seq::new((d - 1) as nat, |i: int| 255u8) + seq![v, Op::ADD.code()]
}

/// Every constant below the cap occurs: with one input, `a+v` is an
/// expression of `2 + d` characters for each constant `v` of `d` digits
/// below the cap.
pub proof fn lemma_constant_occurs(v: u8, d: usize, cap: u8)
    requires
        v < cap,
        v <= 155,
        d == if v < 10 {
            1usize
        } else if v < 100 {
            2usize
        } else {
            3usize
        },
    ensures
        expression_set(1, (d + 2) as usize, cap, None).contains(sum_bytes(v, d as nat)),
        sum_bytes(v, d as nat)[d as int] == v,
{
    let x = sum_bytes(v, d as nat);
    let n: usize = (d + 2) as usize;
    let left = ExpressionWriter {
        input_count: 1,
        required_vars: 0,
        length: 1,
        min_prec: 4,
        constant_cap: cap,
        op_requirement: None,
        state: EWState::Variable { next: 1, max: 0 },
        vum_of_last_write: 1,
    };
    let right = ExpressionWriter {
        input_count: 1,
        required_vars: 0,
        length: d,
        min_prec: 5,
        constant_cap: cap,
        op_requirement: None,
        state: EWState::Constant { next: (v + 1) as u8, max: cap_below(cap, d) },
        vum_of_last_write: 0,
    };
    let w = ExpressionWriter {
        input_count: 1,
        required_vars: 1,
        length: n,
        min_prec: 0,
        constant_cap: cap,
        op_requirement: None,
        state: EWState::OpState { op: Op::ADD, left: Box::new(left), right: Box::new(right) },
        vum_of_last_write: 1,
    };
    lemma_word_facts();
    assert((0u64 >> 1u64) == 0u64);
    let z = (1u8 - 1) as u64;
    assert(z == 0u64);
    assert(left.wf());
    assert(right.wf());
    assert(wasted(Op::ADD, 0) == 1);
    assert(w.wf());
    assert(left.holds());
    assert(right.holds());
    assert(w.holds());
    assert(x.len() == n);
    assert(x[0] == 242u8);
    assert(x[d as int] == v);
    assert(x[n - 1] == Op::ADD.code());
    assert(forall|i: int| 1 <= i < d ==> x[i] == 255u8);
    assert(left.written(x, 0, 1));
    assert(right.written(x, 1, n - 1));
    assert(w.written(x, 0, n as int));
    assert(w.requires_all_vars());
    assert(expression_set(1, n, cap, None).contains(x));
}

/// What a top writer has left are expressions of its shape: every write
/// writes a member of `expression_set`, of which `lemma_expression_set_sound`
/// tells what it is.
pub proof fn lemma_remaining_in_set(w: &ExpressionWriter, x: Seq<u8>)
    requires
        w.is_top(),
        w.requires_all_vars(),
        w.remaining().contains(x),
    ensures
        expression_set(
            w.input_count_spec(),
            w.len_spec(),
            w.constant_cap_spec(),
            w.op_requirement_spec(),
        ).contains(x),
{
    let c = choose|c: ExpressionWriter|
        #[trigger] w.candidate(c) && c.rank() < w.rank() && c.written(x, 0, x.len() as int);
    assert(c.is_top() && c.requires_all_vars());
}

/// A requirement on the top-level operator keeps the expressions with that
/// operator (or, for `None`, the atoms) and drops the others: a writer with
/// a requirement writes, in the same order of keys, exactly those of the
/// unrestricted writer that carry its tag.
pub proof fn lemma_requirement_subset(input_count: u8, length: usize, cap: u8, t: Option<Op>, x: Seq<u8>)
    requires
        1 <= length,
        t != Some(Op::NEG),
    ensures
        expression_set(input_count, length, cap, Some(t)).contains(x) <==> (expression_set(
            input_count,
            length,
            cap,
            None,
        ).contains(x) && tagged(x, t)),
{
    if expression_set(input_count, length, cap, Some(t)).contains(x) {
        lemma_set_tagged(input_count, length, cap, t, x);
        let w = choose|w: ExpressionWriter|
            #[trigger] w.holds() && w.wf() && w.is_top() && w.requires_all_vars() && w.input_count
                == input_count && w.length == length && w.constant_cap == cap && w.op_requirement
                == Some(t) && w.follows_requirement() && w.written(x, 0, length as int);
        let w2 = ExpressionWriter { op_requirement: None, ..w };
        assert(w2.wf());
        assert(w2.holds());
        assert(w2.written(x, 0, length as int));
        assert(expression_set(input_count, length, cap, None).contains(x));
    }
    if expression_set(input_count, length, cap, None).contains(x) && tagged(x, t) {
        let w = choose|w: ExpressionWriter|
            #[trigger] w.holds() && w.wf() && w.is_top() && w.requires_all_vars() && w.input_count
                == input_count && w.length == length && w.constant_cap == cap && w.op_requirement
                == None::<Option<Op>> && w.follows_requirement() && w.written(
                x,
                0,
                length as int,
            );
        assert(w.candidate(w));
        w.lemma_candidate_kind(w);
        w.lemma_written_top(x, 0, length as int);
        if let EWState::OpState { op, .. } = w.state {
            if let Some(o) = t {
                lemma_code_injective(op, o);
            }
        }
        let w2 = ExpressionWriter { op_requirement: Some(t), ..w };
        assert(w2.wf());
        assert(w2.holds());
        assert(w2.written(x, 0, length as int));
        assert(w2.follows_requirement());
        assert(expression_set(input_count, length, cap, Some(t)).contains(x));
    }
}

/// The order of keys puts the atoms first and then each operator's
/// expressions in the operators' order: an expression with a lower key has
/// its top-level operator no earlier.
pub proof fn lemma_key_groups(input_count: u8, length: usize, cap: u8, x: Seq<u8>, z: Seq<u8>)
    requires
        1 <= length,
        expression_set(input_count, length, cap, None).contains(x),
        expression_set(input_count, length, cap, None).contains(z),
        expression_key(input_count, length, cap, z) < expression_key(input_count, length, cap, x),
    ensures
        top_order(z) >= top_order(x),
{
    let wx = choose|w: ExpressionWriter|
        #[trigger] w.holds() && w.wf() && w.is_top() && w.requires_all_vars() && w.input_count
            == input_count && w.length == length && w.constant_cap == cap && w.op_requirement
            == None::<Option<Op>> && w.follows_requirement() && w.written(x, 0, length as int);
    let wz = choose|w: ExpressionWriter|
        #[trigger] w.holds() && w.wf() && w.is_top() && w.requires_all_vars() && w.input_count
            == input_count && w.length == length && w.constant_cap == cap && w.op_requirement
            == None::<Option<Op>> && w.follows_requirement() && w.written(z, 0, length as int);
    lemma_key_of(wx, x);
    lemma_key_of(wz, z);
    assert(wx.required_vars == wz.required_vars);
    assert(wx.candidate(wz));
    assert(wx.candidate(wx));
    wx.lemma_candidate_kind(wz);
    wx.lemma_candidate_kind(wx);
    wx.lemma_written_top(x, 0, length as int);
    wz.lemma_written_top(z, 0, length as int);
    let s = block(length as nat);
    if let (EWState::OpState { op: a, .. }, EWState::OpState { op: b, .. }) = (wz.state, wx.state) {
        lemma_windows_apart(ops_after(b), ops_after(a), s);
    }
}

/// A region of bytes is what comes before `a`, what comes between `a` and
/// `c`, the byte at `c`, and the rest.
proof fn lemma_split(d: Seq<u8>, lo: int, a: int, c: int, hi: int)
    requires
        0 <= lo <= a <= c < hi <= d.len(),
    ensures
        d.subrange(lo, hi) =~= d.subrange(lo, a) + d.subrange(a, c) + seq![d[c]] + d.subrange(
            c + 1,
            hi,
        ),
{
}

impl ExpressionWriter {
    /// What a writer wrote runs safely on any stack that leaves room for it,
    /// and leaves one value (nothing, for the empty operand of a unary
    /// operator).
    proof fn lemma_written_runs(&self, d: Seq<u8>, lo: int, hi: int, base: int, vars: nat)
        requires
            self.wf(),
            self.written(d, lo, hi),
            0 <= lo,
            lo + self.length <= hi <= d.len(),
            vars <= 13,
            self.state is Dummy || self.input_count <= vars,
            0 <= base,
            base + self.length <= 99,
        ensures
            runs_ok_from(d.subrange(lo, hi), base, vars),
            height_after(d.subrange(lo, hi)) == if self.state is Dummy {
                0int
            } else {
                1int
            },
        decreases self,
    {
        match self.state {
            EWState::Dummy => {
                lemma_nops_run(d.subrange(lo, hi), base, vars);
            },
            EWState::OpState { op, left, right } => {
                let end = lo + self.length - 1;
                let mid = end - right.length;
                let l = d.subrange(lo, mid);
                let r = d.subrange(mid, end);
                let t = d.subrange(end + 1, hi);
                lemma_split(d, lo, mid, end, hi);
                left.lemma_written_runs(d, lo, mid, base, vars);
                let hl = height_after(l);
                right.lemma_written_runs(d, mid, end, base + hl, vars);
                let hr = height_after(r);
                lemma_runs_concat(l, r, base, vars);
                lemma_height_concat(l, r);
                lemma_decode_encode(Pivot::OpPivot(op));
                assert(step_ok(base + (hl + hr), op.code(), vars));
                lemma_single_run(op.code(), base + (hl + hr), vars);
                lemma_runs_concat(l + r, seq![op.code()], base, vars);
                lemma_height_concat(l + r, seq![op.code()]);
                lemma_nops_run(t, base + 1, vars);
                lemma_runs_concat(l + r + seq![op.code()], t, base, vars);
                lemma_height_concat(l + r + seq![op.code()], t);
            },
            _ => {
                let p = lo + self.length - 1;
                let a = d.subrange(lo, p);
                let t = d.subrange(p + 1, hi);
                lemma_split(d, lo, lo, p, hi);
                assert(d.subrange(lo, lo) + a =~= a);
                lemma_nops_run(a, base, vars);
                if let EWState::Variable { next, max } = self.state {
                    lemma_decode_encode(Pivot::VarPivot((next - 1) as u8));
                } else if let EWState::Constant { next, max } = self.state {
                    lemma_decode_encode(Pivot::ConstPivot((next - 1) as u8));
                }
                assert(step_ok(base, d[p], vars));
                lemma_single_run(d[p], base, vars);
                lemma_runs_concat(a, seq![d[p]], base, vars);
                lemma_height_concat(a, seq![d[p]]);
                lemma_nops_run(t, base + 1, vars);
                lemma_runs_concat(a + seq![d[p]], t, base, vars);
                lemma_height_concat(a + seq![d[p]], t);
            },
        }
    }
}

/// Every expression a writer writes is a program that runs: no step of it
/// decodes a byte that stands for nothing, pops from an empty stack, reads
/// a variable beyond the writer's inputs or overflows the stack, and it
/// leaves exactly one value. This holds for writers of at most 13 inputs
/// (the variables a byte can name) and of at most 99 characters (the room
/// of the stack).
pub proof fn lemma_written_runs_ok(w: &ExpressionWriter, d: Seq<u8>)
    requires
        w.wf(),
        w.written(d, 0, d.len() as int),
        1 <= w.len_spec() <= d.len(),
        w.len_spec() <= 99,
        w.input_count_spec() <= 13,
    ensures
        runs_ok(d, w.input_count_spec() as nat),
        height_after(d) == 1,
{
    let vars = w.input_count_spec() as nat;
    w.lemma_written_runs(d, 0, d.len() as int, 0, vars);
    assert(d.subrange(0, d.len() as int) =~= d);
    assert forall|i: int| 0 <= i < d.len() implies #[trigger] step_ok(
        height_after(d.take(i)),
        d[i],
        vars,
    ) by {
        assert(step_ok(0 + height_after(d.take(i)), d[i], vars));
    }
}

/// The top-level operators of the expressions a task of writer type `wt`
/// covers, in the order in which it visits them (`None` stands for the
/// atoms). Unary minus is not among them: a search writes `-` only as
/// subtraction, for signed and unsigned numbers alike.
pub open spec fn task_ops_spec(wt: WriterType) -> Seq<Option<Op>> {
    match wt {
        WriterType::ConstVar => seq![None],
        WriterType::Neg => seq![Some(Op::NOT)],
        WriterType::Mul => seq![Some(Op::MUL), Some(Op::DIV), Some(Op::MOD)],
        WriterType::Add => seq![Some(Op::ADD), Some(Op::SUB)],
        WriterType::Shift => seq![Some(Op::LSL), Some(Op::LSR)],
        WriterType::And => seq![Some(Op::AND)],
        WriterType::Xor => seq![Some(Op::XOR)],
        WriterType::Or => seq![Some(Op::ORR)],
    }
}

/// No operator is listed twice for a task.
proof fn lemma_task_ops_distinct(wt: WriterType)
    ensures
        task_ops_spec(wt).no_duplicates(),
{
}

/// The top-level operators of a task, as `task_ops_spec` lists them.
pub fn task_ops(wt: WriterType) -> (r: Vec<Option<Op>>)
    ensures
        r@ == task_ops_spec(wt),
{
    let r = match wt {
        WriterType::ConstVar => vec![None],
        WriterType::Neg => vec![Some(Op::NOT)],
        WriterType::Mul => vec![Some(Op::MUL), Some(Op::DIV), Some(Op::MOD)],
        WriterType::Add => vec![Some(Op::ADD), Some(Op::SUB)],
        WriterType::Shift => vec![Some(Op::LSL), Some(Op::LSR)],
        WriterType::And => vec![Some(Op::AND)],
        WriterType::Xor => vec![Some(Op::XOR)],
        WriterType::Or => vec![Some(Op::ORR)],
    };
    assert(r@ =~= task_ops_spec(wt));
    r
}

/// Writes the expressions of one task of a search: those of a given length
/// whose top-level operator is of a given writer type, one operator after
/// another.
pub struct TaskWriter {
    input_count: usize,
    length: usize,
    constant_cap: u8,
    ops: Vec<Option<Op>>,
    index: usize,
    current: ExpressionWriter,
}

impl TaskWriter {
    /// The writer is consistent: it is at one of its operators, and its
    /// current expression writer belongs to that operator.
    pub closed spec fn wf(&self) -> bool {
        &&& self.index < self.ops@.len()
        &&& self.current.wf()
        &&& self.current.is_top()
        &&& self.current.requires_all_vars()
        &&& self.current.len_spec() == self.length
        &&& self.current.input_count_spec() == self.input_count
        &&& self.current.op_requirement_spec() == Some(self.ops@[self.index as int])
        &&& self.current.follows_requirement()
        &&& self.current.constant_cap_spec() == self.constant_cap
        &&& self.constant_cap <= 156
        &&& self.ops@.no_duplicates()
        &&& forall|i: int, j: int|
            0 <= i < j < self.ops@.len() ==> #[trigger] self.ops@[i] is Some
                && #[trigger] self.ops@[j] is Some && ops_after(self.ops@[i].unwrap())
                > ops_after(self.ops@[j].unwrap())
        &&& 1 <= self.input_count <= 63
        &&& 1 <= self.length < usize::MAX
    }

    /// The cap on the constants written.
    pub closed spec fn cap_spec(&self) -> u8 {
        self.constant_cap
    }

    /// The length of the expressions written.
    pub closed spec fn len_spec(&self) -> usize {
        self.length
    }

    /// The number of input variables.
    pub closed spec fn input_count_spec(&self) -> usize {
        self.input_count
    }

    /// The bytes `d` are what the next write needs.
    pub closed spec fn ready(&self, d: Seq<u8>) -> bool {
        self.current.pre(d, 0, d.len() as int)
    }

    /// The bytes `d` hold the expression written last.
    pub closed spec fn holds_expression(&self, d: Seq<u8>) -> bool {
        self.current.written(d, 0, d.len() as int)
    }

    /// The operators of the task, and the one being written.
    pub closed spec fn progress(&self) -> (Seq<Option<Op>>, int) {
        (self.ops@, self.index as int)
    }

    /// A measure that every write decreases.
    pub closed spec fn measure(&self) -> (int, nat) {
        (self.ops@.len() - self.index, self.current.rank())
    }

    /// The expressions the task has still to write: those its current
    /// writer has left, and all those of its later operators.
    pub closed spec fn remaining(&self) -> Set<Seq<u8>> {
        Set::new(
            |x: Seq<u8>|
                self.current.remaining().contains(x) || exists|j: int|
                    self.index < j < self.ops@.len() && #[trigger] expression_set(
                        self.input_count as u8,
                        self.length,
                        self.constant_cap,
                        Some(self.ops@[j]),
                    ).contains(x),
        )
    }

    /// A writer for the task of expressions of `length` characters over
    /// `input_count` variables whose top-level operator is of type
    /// `writer_type`, with constants below `constant_cap` (at most 156).
    pub fn new(input_count: usize, length: usize, constant_cap: u128, writer_type: WriterType) -> (r: Self)
        requires
            1 <= input_count <= 63,
            1 <= length < usize::MAX,
        ensures
            r.wf(),
            r.len_spec() == length,
            r.input_count_spec() == input_count,
            r.progress() == (task_ops_spec(writer_type), 0int),
            r.cap_spec() == if constant_cap > 156 { 156 } else { constant_cap as u8 },
            forall|d: Seq<u8>| r.ready(d),
            r.remaining() == task_set(input_count as u8, length, r.cap_spec(), writer_type),
    {
        let ops = task_ops(writer_type);
        proof {
            lemma_task_ops_distinct(writer_type);
        }
        let cap: u8 = if constant_cap > 156 {
            156
        } else {
            constant_cap as u8
        };
        let current = ExpressionWriter::new(input_count, length, cap, Some(ops[0]));
        let r = TaskWriter { input_count, length, constant_cap: cap, ops, index: 0, current };
        proof {
            let t = task_set(input_count as u8, length, cap, writer_type);
            assert forall|x: Seq<u8>| r.remaining().contains(x) == t.contains(x) by {
                if t.contains(x) {
                    let j = choose|j: int|
                        0 <= j < task_ops_spec(writer_type).len() && #[trigger] expression_set(
                            input_count as u8,
                            length,
                            cap,
                            Some(task_ops_spec(writer_type)[j]),
                        ).contains(x);
                    if j > 0 {
                        assert(r.index < j < r.ops@.len());
                    }
                }
                if r.remaining().contains(x) && !r.current.remaining().contains(x) {
                    let j = choose|j: int|
                        r.index < j < r.ops@.len() && #[trigger] expression_set(
                            input_count as u8,
                            length,
                            cap,
                            Some(r.ops@[j]),
                        ).contains(x);
                    assert(0 <= j < task_ops_spec(writer_type).len());
                }
            }
            assert(r.remaining() =~= t);
        }
        r
    }

    /// Write the next expression of the task into the first `len_spec()`
    /// bytes of `dest`; `false` once the task is done.
    pub fn write(&mut self, dest: &mut [u8]) -> (r: bool)
        requires
            old(self).wf(),
            old(self).len_spec() <= old(dest)@.len(),
            old(self).ready(old(dest)@),
        ensures
            final(self).wf(),
            final(self).len_spec() == old(self).len_spec(),
            final(self).input_count_spec() == old(self).input_count_spec(),
            final(self).progress().0 == old(self).progress().0,
            final(self).cap_spec() == old(self).cap_spec(),
            final(dest)@.len() == old(dest)@.len(),
            r ==> final(self).holds_expression(final(dest)@),
            r ==> final(self).ready(final(dest)@),
            r ==> final(self).progress().1 > old(self).progress().1 || (final(self).progress().1
                == old(self).progress().1 && final(self).measure().1 < old(self).measure().1),
            !r ==> final(self).progress().1 == final(self).progress().0.len() - 1,
            r ==> old(self).remaining().contains(
                final(dest)@.subrange(0, old(self).len_spec() as int),
            ),
            r ==> final(self).remaining() == old(self).remaining().remove(
                final(dest)@.subrange(0, old(self).len_spec() as int),
            ),
            r ==> forall|z: Seq<u8>|
                #[trigger] final(self).remaining().contains(z) ==> expression_key(
                    old(self).input_count_spec() as u8,
                    old(self).len_spec(),
                    old(self).cap_spec(),
                    z,
                ) < expression_key(
                    old(self).input_count_spec() as u8,
                    old(self).len_spec(),
                    old(self).cap_spec(),
                    final(dest)@.subrange(0, old(self).len_spec() as int),
                ),
            r ==> forall|i: int|
                old(self).len_spec() <= i < final(dest)@.len() ==> final(dest)@[i] == 255u8,
            !r <==> old(self).remaining().is_empty(),
        decreases old(self).measure().0, old(self).measure().1,
    {
        let ghost t0 = *self;
        if self.current.write(dest) {
            proof {
                let x = dest@.subrange(0, self.length as int);
                t0.lemma_later_apart(x);
                assert(self.remaining() =~= t0.remaining().remove(x));
                self.current.lemma_written_sub(dest@, x, 0, dest@.len() as int, self.length as int);
                self.current.lemma_written_tail(dest@, 0, dest@.len() as int);
                self.current.lemma_written_holds(dest@, 0, dest@.len() as int);
                t0.lemma_later_below(x, self.current);
                assert forall|z: Seq<u8>| #[trigger] self.remaining().contains(z) implies expression_key(
                    t0.input_count as u8,
                    t0.length,
                    t0.constant_cap,
                    z,
                ) < expression_key(t0.input_count as u8, t0.length, t0.constant_cap, x) by {
                    if !self.current.remaining().contains(z) {
                        let j = choose|j: int|
                            self.index < j < self.ops@.len() && #[trigger] expression_set(
                                self.input_count as u8,
                                self.length,
                                self.constant_cap,
                                Some(self.ops@[j]),
                            ).contains(z);
                    }
                }
            }
            return true;
        }
        if self.index >= self.ops.len() - 1 {
            proof {
                assert(t0.remaining() =~= Set::empty());
            }
            return false;
        }
        self.index = self.index + 1;
        let op = self.ops[self.index];
        self.current = ExpressionWriter::new(self.input_count, self.length, self.constant_cap, Some(op));
        proof {
            assert(self.remaining() =~= t0.remaining());
        }
        self.write(dest)
    }
}

/// The expressions of one task: those of `length` characters over
/// `input_count` variables, with constants below `cap`, whose top-level
/// operator is one of the task's.
pub open spec fn task_set(input_count: u8, length: usize, cap: u8, wt: WriterType) -> Set<
    Seq<u8>,
> {
    Set::new(
        |x: Seq<u8>|
            exists|j: int|
                0 <= j < task_ops_spec(wt).len() && #[trigger] expression_set(
                    input_count,
                    length,
                    cap,
                    Some(task_ops_spec(wt)[j]),
                ).contains(x),
    )
}

/// Where an expression's top-level operator stands in the order in which a
/// writer visits them, read from its last byte: 0 for an atom, then one
/// more for each operator after `NOT`.
pub open spec fn top_order(x: Seq<u8>) -> int {
    let c = x[x.len() - 1];
    if c < 243 {
        0
    } else {
        12 - ops_after(op_of_code(c))
    }
}

/// The last byte of an expression shows its top-level operator: that
/// operator's byte, or an atom's.
pub open spec fn tagged(x: Seq<u8>, top: Option<Op>) -> bool {
    match top {
        Some(op) => x[x.len() - 1] == op.code(),
        None => x[x.len() - 1] < 243,
    }
}

/// An expression of a shape with a requirement on its top-level operator
/// is tagged with it.
proof fn lemma_set_tagged(input_count: u8, length: usize, cap: u8, top: Option<Op>, x: Seq<u8>)
    requires
        expression_set(input_count, length, cap, Some(top)).contains(x),
    ensures
        tagged(x, top),
{
    let w = choose|w: ExpressionWriter|
        #[trigger] w.holds() && w.wf() && w.is_top() && w.requires_all_vars() && w.input_count
            == input_count && w.length == length && w.constant_cap == cap && w.op_requirement
            == Some(top) && w.follows_requirement() && w.written(x, 0, length as int);
    w.lemma_written_last_byte(x, 0, length as int);
}

/// One expression carries one tag.
proof fn lemma_tags_apart(x: Seq<u8>, a: Option<Op>, b: Option<Op>)
    requires
        tagged(x, a),
        tagged(x, b),
    ensures
        a == b,
{
    if let (Some(p), Some(q)) = (a, b) {
        lemma_code_injective(p, q);
    }
}

impl TaskWriter {
    /// The expressions of later operators come after the one the current
    /// writer holds: their keys are lower.
    proof fn lemma_later_below(&self, x: Seq<u8>, fin: ExpressionWriter)
        requires
            self.wf(),
            fin.wf(),
            fin.same_shape(&self.current),
            fin.follows_requirement(),
            fin.holds(),
            x.len() == self.length,
            fin.written(x, 0, self.length as int),
        ensures
            forall|j: int, z: Seq<u8>|
                self.index < j < self.ops@.len() && #[trigger] expression_set(
                    self.input_count as u8,
                    self.length,
                    self.constant_cap,
                    Some(self.ops@[j]),
                ).contains(z) ==> expression_key(
                    self.input_count as u8,
                    self.length,
                    self.constant_cap,
                    z,
                ) < expression_key(self.input_count as u8, self.length, self.constant_cap, x),
    {
        let s = block(self.length as nat);
        assert forall|j: int, z: Seq<u8>|
            self.index < j < self.ops@.len() && #[trigger] expression_set(
                self.input_count as u8,
                self.length,
                self.constant_cap,
                Some(self.ops@[j]),
            ).contains(z) implies expression_key(
                self.input_count as u8,
                self.length,
                self.constant_cap,
                z,
            ) < expression_key(self.input_count as u8, self.length, self.constant_cap, x) by {
            let i = self.index as int;
            assert(self.ops@[i] is Some && self.ops@[j] is Some);
            let wz = choose|w: ExpressionWriter|
                #[trigger] w.holds() && w.wf() && w.is_top() && w.requires_all_vars()
                    && w.input_count == self.input_count as u8 && w.length == self.length
                    && w.constant_cap == self.constant_cap && w.op_requirement == Some(
                    self.ops@[j],
                ) && w.follows_requirement() && w.written(z, 0, self.length as int);
            lemma_key_of(wz, z);
            lemma_key_of(fin, x);
            wz.lemma_op_window();
            fin.lemma_op_window();
            let a = self.ops@[j].unwrap();
            let b = self.ops@[i].unwrap();
            lemma_windows_apart(ops_after(a), ops_after(b), s);
        }
    }

    /// What the current writer has left is none of the later operators'.
    proof fn lemma_later_apart(&self, x: Seq<u8>)
        requires
            self.wf(),
            self.current.remaining().contains(x),
        ensures
            forall|j: int|
                self.index < j < self.ops@.len() ==> !#[trigger] expression_set(
                    self.input_count as u8,
                    self.length,
                    self.constant_cap,
                    Some(self.ops@[j]),
                ).contains(x),
    {
        self.current.lemma_remaining_tagged(x);
        assert forall|j: int|
            self.index < j < self.ops@.len() implies !#[trigger] expression_set(
                self.input_count as u8,
                self.length,
                self.constant_cap,
                Some(self.ops@[j]),
            ).contains(x) by {
            if expression_set(
                self.input_count as u8,
                self.length,
                self.constant_cap,
                Some(self.ops@[j]),
            ).contains(x) {
                lemma_set_tagged(
                    self.input_count as u8,
                    self.length,
                    self.constant_cap,
                    self.ops@[j],
                    x,
                );
                lemma_tags_apart(x, self.ops@[j], self.ops@[self.index as int]);
            }
        }
    }
}

impl ExpressionWriter {
    /// What a writer with a requirement on the top-level operator has left
    /// is tagged with it.
    proof fn lemma_remaining_tagged(&self, x: Seq<u8>)
        requires
            self.wf(),
            self.remaining().contains(x),
            self.op_requirement is Some,
        ensures
            tagged(x, self.op_requirement.unwrap()),
    {
        let w = choose|w: ExpressionWriter|
            #[trigger] self.candidate(w) && w.rank() < self.rank() && w.written(
                x,
                0,
                x.len() as int,
            );
        w.lemma_written_last_byte(x, 0, x.len() as int);
    }
}

/// Every expression a task writer writes is a program that runs (see
/// `lemma_written_runs_ok`), for up to 13 inputs and 99 characters, its
/// text is exactly the task's length (see `lemma_written_renders_to_length`),
/// and it uses every input variable (see `lemma_written_uses_all_vars`).
pub proof fn lemma_task_written_expression(w: &TaskWriter, d: Seq<u8>)
    requires
        w.wf(),
        w.holds_expression(d),
        w.len_spec() <= d.len(),
        w.len_spec() <= 99,
        w.input_count_spec() <= 13,
    ensures
        runs_ok(d, w.input_count_spec() as nat),
        height_after(d) == 1,
        renderable(d),
        render_text(d).len() == w.len_spec(),
        forall|v: u64| v < w.input_count_spec() ==> uses_var(d, 0, d.len() as int, v),
{
    lemma_written_runs_ok(&w.current, d);
    lemma_written_renders_to_length(&w.current, d);
    lemma_written_uses_all_vars(&w.current, d);
}

/// A run of no-ops after a rendered subexpression only lengthens its span.
proof fn lemma_render_nops(d: Seq<u8>, a: int, b: int)
    requires
        0 < a <= b <= d.len(),
        forall|i: int| a <= i < b ==> d[i] == 255u8,
        render(d, a) is Some,
    ensures
        render(d, b) == Some(
            (render(d, a).unwrap().0, render(d, a).unwrap().1, render(d, a).unwrap().2 + (b - a)),
        ),
    decreases b - a,
{
    if b > a {
        lemma_render_nops(d, a, b - 1);
        assert(d[b - 1] == 255u8);
    }
}

proof fn lemma_face_len(op: Op)
    ensures
        face_of(op).len() == op.len(),
{
}

impl ExpressionWriter {
    /// Where the pivots of what the writer wrote start, in a region that
    /// starts at `lo`: the bytes before are no-ops.
    pub closed spec fn start(&self, lo: int) -> int
        decreases self,
    {
        match self.state {
            EWState::OpState { op, left, right } => {
                let end = lo + self.length - 1;
                let mid = end - right.length;
                if left.state is Dummy {
                    right.start(mid)
                } else {
                    left.start(lo)
                }
            },
            _ => lo + self.length - 1,
        }
    }

    /// The characters of the parentheses around the writer's operator.
    pub closed spec fn parens(&self) -> int {
        match self.state {
            EWState::OpState { op, .. } => if op.prec() < self.min_prec {
                2
            } else {
                0
            },
            _ => 0,
        }
    }

    /// The precedence of what the writer wrote.
    pub closed spec fn out_prec(&self) -> int {
        match self.state {
            EWState::OpState { op, .. } => op.prec() as int,
            _ => atom_prec(),
        }
    }

    /// What a writer wrote renders as one subexpression that spans from its
    /// start to the end of its region, and whose text, with the parentheses
    /// its place needs, is as long as the writer's length.
    proof fn lemma_written_renders(&self, d: Seq<u8>, lo: int, hi: int)
        requires
            self.wf(),
            !(self.state is Dummy),
            self.written(d, lo, hi),
            0 <= lo,
            lo + self.length <= hi <= d.len(),
            self.input_count <= 13,
        ensures
            lo <= self.start(lo) < lo + self.length,
            forall|i: int| lo <= i < self.start(lo) ==> d[i] == 255u8,
            render(d, hi) is Some,
            render(d, hi).unwrap().0.len() == self.length - self.parens(),
            render(d, hi).unwrap().1 == self.out_prec(),
            render(d, hi).unwrap().2 == hi - self.start(lo),
        decreases self,
    {
        match self.state {
            EWState::OpState { op, left, right } => {
                let end = lo + self.length - 1;
                let mid = end - right.length;
                lemma_decode_encode(Pivot::OpPivot(op));
                lemma_face_len(op);
                right.lemma_written_renders(d, mid, end);
                let rs = right.start(mid);
                let (rt, rp, rl) = render(d, end).unwrap();
                assert(parenthesize(rt, rp > op.prec()).len() == right.length || op.arity() == 1) by {
                    if op.arity() != 1 {
                        if let EWState::OpState { op: rop, .. } = right.state {
                            assert(rp == rop.prec());
                        } else {
                            assert(rp == atom_prec());
                        }
                    }
                }
                assert(parenthesize(rt, rp >= op.prec()).len() == right.length || op.arity() != 1) by {
                    if op.arity() == 1 {
                        if let EWState::OpState { op: rop, .. } = right.state {
                            assert(rp == rop.prec());
                        } else {
                            assert(rp == atom_prec());
                        }
                    }
                }
                if left.state is Dummy {
                    assert(left.written(d, lo, mid));
                    assert(forall|i: int| lo <= i < mid ==> d[i] == 255u8);
                    assert(render(d, end + 1) == Some(
                        (face_of(op) + parenthesize(rt, rp >= op.prec()), op.prec() as int, rl + 1),
                    ));
                    let t = face_of(op) + parenthesize(rt, rp >= op.prec());
                    assert(t.len() == 1 + right.length);
                    assert(right.length + wasted(op, self.min_prec) == self.length);
                    assert(t.len() == self.length - self.parens());
                    lemma_render_nops(d, end + 1, hi);
                    assert(render(d, hi).unwrap().0 == t);
                } else {
                    left.lemma_written_renders(d, lo, mid);
                    let ls = left.start(lo);
                    lemma_render_nops(d, mid, rs);
                    let (lt, lp, ll) = render(d, rs).unwrap();
                    assert(parenthesize(lt, lp >= op.prec()).len() == left.length) by {
                        if let EWState::OpState { op: lop, .. } = left.state {
                            assert(lp == lop.prec());
                        } else {
                            assert(lp == atom_prec());
                        }
                    }
                    assert(render(d, end + 1) == Some(
                        (
                            parenthesize(lt, lp >= op.prec()) + face_of(op) + parenthesize(
                                rt,
                                rp > op.prec(),
                            ),
                            op.prec() as int,
                            1 + ll + rl,
                        ),
                    ));
                    let t = parenthesize(lt, lp >= op.prec()) + face_of(op) + parenthesize(
                        rt,
                        rp > op.prec(),
                    );
                    assert(t.len() == left.length + op.len() + right.length);
                    assert(left.length + right.length + wasted(op, self.min_prec) == self.length);
                    assert(t.len() == self.length - self.parens());
                    lemma_render_nops(d, end + 1, hi);
                    assert(render(d, hi).unwrap().0 == t);
                }
            },
            _ => {
                self.lemma_atom_renders(d, lo, hi);
            },
        }
    }

    proof fn lemma_atom_renders(&self, d: Seq<u8>, lo: int, hi: int)
        requires
            self.wf(),
            self.state is Variable || self.state is Constant,
            self.written(d, lo, hi),
            0 <= lo,
            lo + self.length <= hi <= d.len(),
            self.input_count <= 13,
        ensures
            lo <= self.start(lo) < lo + self.length,
            forall|i: int| lo <= i < self.start(lo) ==> d[i] == 255u8,
            render(d, hi) is Some,
            render(d, hi).unwrap().0.len() == self.length - self.parens(),
            render(d, hi).unwrap().1 == self.out_prec(),
            render(d, hi).unwrap().2 == hi - self.start(lo),
    {
        let p = lo + self.length - 1;
        if let EWState::Variable { next, max } = self.state {
            lemma_decode_encode(Pivot::VarPivot((next - 1) as u8));
            assert(render(d, p + 1).unwrap().0.len() == 1);
        } else if let EWState::Constant { next, max } = self.state {
            lemma_decode_encode(Pivot::ConstPivot((next - 1) as u8));
            lemma_decimal_len((next - 1) as nat);
            assert(render(d, p + 1).unwrap().0 == decimal((next - 1) as nat));
        }
        assert(render(d, p + 1) is Some);
        lemma_render_nops(d, p + 1, hi);
    }
}

/// Every expression a writer at the top of an expression writes renders
/// as Rust source text of exactly the writer's length (for writers of at
/// most 13 inputs, the variables a byte can name).
pub proof fn lemma_written_renders_to_length(w: &ExpressionWriter, d: Seq<u8>)
    requires
        w.wf(),
        w.is_top(),
        w.written(d, 0, d.len() as int),
        1 <= w.len_spec() <= d.len(),
        w.input_count_spec() <= 13,
    ensures
        renderable(d),
        render_text(d).len() == w.len_spec(),
{
    w.lemma_written_renders(d, 0, d.len() as int);
}

proof fn lemma_bits()
    ensures
        forall|a: u64, b: u64, v: u64|
            v < 64 ==> #[trigger] bit(a | b, v) == (bit(a, v) || bit(b, v)),
        forall|a: u64, b: u64, v: u64|
            v < 64 ==> #[trigger] bit(a & !b, v) == (bit(a, v) && !bit(b, v)),
        forall|w: u64, v: u64| w < 64 && v < 64 ==> #[trigger] bit(1u64 << w, v) == (v == w),
        forall|v: u64| v < 64 ==> !#[trigger] bit(0u64, v),
{
    assert forall|a: u64, b: u64, v: u64| v < 64 implies #[trigger] bit(a | b, v) == (bit(a, v)
        || bit(b, v)) by {
        assert(v < 64 ==> (((a | b) >> v) & 1u64 == 1u64) == (((a >> v) & 1u64 == 1u64) || ((b
            >> v) & 1u64 == 1u64))) by (bit_vector);
    }
    assert forall|a: u64, b: u64, v: u64| v < 64 implies #[trigger] bit(a & !b, v) == (bit(a, v)
        && !bit(b, v)) by {
        assert(v < 64 ==> (((a & !b) >> v) & 1u64 == 1u64) == (((a >> v) & 1u64 == 1u64) && !((b
            >> v) & 1u64 == 1u64))) by (bit_vector);
    }
    assert forall|w: u64, v: u64| w < 64 && v < 64 implies #[trigger] bit(1u64 << w, v) == (v
        == w) by {
        assert(w < 64 && v < 64 ==> ((((1u64 << w) >> v) & 1u64 == 1u64) == (v == w))) by (bit_vector);
    }
    assert forall|v: u64| v < 64 implies !#[trigger] bit(0u64, v) by {
        assert(v < 64 ==> (0u64 >> v) & 1u64 == 0u64) by (bit_vector);
    }
}

impl ExpressionWriter {
    /// The variables a writer marks as used appear in what it wrote, and
    /// the variables it must use are among them.
    proof fn lemma_written_vars(&self, d: Seq<u8>, lo: int, hi: int)
        requires
            self.wf(),
            self.written(d, lo, hi),
            0 <= lo,
            lo + self.length <= hi <= d.len(),
        ensures
            forall|v: u64| v < 64 && #[trigger] bit(self.vum_of_last_write, v) ==> uses_var(d, lo, hi, v),
            forall|v: u64| v < 64 && #[trigger] bit(self.required_vars, v) ==> bit(self.vum_of_last_write, v),
        decreases self,
    {
        lemma_bits();
        match self.state {
            EWState::OpState { op, left, right } => {
                let end = lo + self.length - 1;
                let mid = end - right.length;
                left.lemma_written_vars(d, lo, mid);
                right.lemma_written_vars(d, mid, end);
                assert forall|v: u64| v < 64 && #[trigger] bit(self.vum_of_last_write, v) implies uses_var(d, lo, hi, v) by {
                    if bit(left.vum_of_last_write, v) {
                        let i = choose|i: int| lo <= i < mid && d[i] == 242 - v;
                        assert(lo <= i < hi && d[i] == 242 - v);
                    } else {
                        assert(bit(right.vum_of_last_write, v));
                        let i = choose|i: int| mid <= i < end && d[i] == 242 - v;
                        assert(lo <= i < hi && d[i] == 242 - v);
                    }
                }
                assert forall|v: u64| v < 64 && #[trigger] bit(self.required_vars, v) implies bit(self.vum_of_last_write, v) by {
                    if !bit(left.vum_of_last_write, v) {
                        assert(bit(right.required_vars, v));
                    }
                }
            },
            EWState::Variable { next, max } => {
                let w = (next - 1) as u64;
                let p = lo + self.length - 1;
                assert forall|v: u64| v < 64 && #[trigger] bit(self.vum_of_last_write, v) implies uses_var(d, lo, hi, v) by {
                    assert(v == w);
                    assert(lo <= p < hi && d[p] == 242 - v);
                }
            },
            _ => {},
        }
    }
}

/// Every expression a writer for all its inputs writes uses every input
/// variable.
pub proof fn lemma_written_uses_all_vars(w: &ExpressionWriter, d: Seq<u8>)
    requires
        w.wf(),
        w.requires_all_vars(),
        w.written(d, 0, d.len() as int),
        1 <= w.len_spec() <= d.len(),
    ensures
        forall|v: u64| v < w.input_count_spec() ==> uses_var(d, 0, d.len() as int, v),
{
    w.lemma_written_vars(d, 0, d.len() as int);
    let ic = w.input_count as u64;
    assert(ic <= 63);
    assert forall|v: u64| v < w.input_count_spec() implies uses_var(d, 0, d.len() as int, v) by {
        let r = w.required_vars;
        assert(bit(r, v)) by {
            assert(r + 1 == 1u64 << ic && v < ic && ic <= 63 ==> (r >> v) & 1u64 == 1u64) by (bit_vector);
        }
    }
}


/// Different operators have different bytes.
proof fn lemma_code_injective(a: Op, b: Op)
    requires
        a.code() == b.code(),
    ensures
        a == b,
{
}

impl ExpressionWriter {
    /// Two writers with the same precedence floor whose written expressions
    /// end at the same byte have the same length: the bytes show where an
    /// expression starts.
    proof fn lemma_extent(&self, other: &Self, d: Seq<u8>, lo1: int, hi1: int, lo2: int, hi2: int)
        requires
            self.wf(),
            other.wf(),
            !(self.state is Dummy),
            !(other.state is Dummy),
            self.min_prec == other.min_prec,
            self.written(d, lo1, hi1),
            other.written(d, lo2, hi2),
            lo1 + self.length == lo2 + other.length,
        ensures
            self.length == other.length,
        decreases self.length,
    {
        let e = lo1 + self.length - 1;
        match (self.state, other.state) {
            (
                EWState::OpState { op: op1, left: l1, right: r1 },
                EWState::OpState { op: op2, left: l2, right: r2 },
            ) => {
                lemma_code_injective(op1, op2);
                let end = e;
                r1.lemma_extent(&*r2, d, end - r1.length, end, end - r2.length, end);
                if op1.arity() != 1 {
                    let mid = end - r1.length;
                    l1.lemma_extent(&*l2, d, lo1, mid, lo2, mid);
                }
            },
            _ => {},
        }
    }

    /// Two writers of the same length and precedence floor that hold the
    /// same written bytes are in states of the same rank, and used the same
    /// variables.
    proof fn lemma_same_rank(&self, other: &Self, d: Seq<u8>, lo: int, hi1: int, hi2: int)
        requires
            self.wf(),
            other.wf(),
            !(self.state is Dummy),
            !(other.state is Dummy),
            self.length == other.length,
            self.min_prec == other.min_prec,
            self.written(d, lo, hi1),
            other.written(d, lo, hi2),
        ensures
            self.rank() == other.rank(),
            self.vum_of_last_write == other.vum_of_last_write,
        decreases self.length,
    {
        let e = lo + self.length - 1;
        match (self.state, other.state) {
            (
                EWState::OpState { op: op1, left: l1, right: r1 },
                EWState::OpState { op: op2, left: l2, right: r2 },
            ) => {
                lemma_code_injective(op1, op2);
                r1.lemma_extent(&*r2, d, e - r1.length, e, e - r2.length, e);
                r1.lemma_same_rank(&*r2, d, e - r1.length, e, e);
                if op1.arity() != 1 {
                    let mid = e - r1.length;
                    l1.lemma_same_rank(&*l2, d, lo, mid, mid);
                } else {
                    assert(l1.wf() && l2.wf());
                    assert(l1.state is Dummy && l2.state is Dummy);
                    assert(l1.vum_of_last_write == 0 && l2.vum_of_last_write == 0);
                    assert(l1.rank() == 0 && l2.rank() == 0);
                }
                assert(r1.length == r2.length);
                assert(r1.rank() == r2.rank());
                assert(l1.rank() == l2.rank());
                assert(l1.vum_of_last_write == l2.vum_of_last_write);
                assert(self.rank() == other.rank());
            },
            (EWState::Variable { next: n1, max: m1 }, EWState::Variable { next: n2, max: m2 }) => {
                assert(n1 == n2);
            },
            (EWState::Constant { next: n1, max: m1 }, EWState::Constant { next: n2, max: m2 }) => {
                assert(n1 == n2);
            },
            (EWState::Variable { next: n1, max: m1 }, _) => {
                assert(d[e] >= 180);
            },
            (_, EWState::Variable { next: n2, max: m2 }) => {
                assert(d[e] >= 180);
            },
            _ => {},
        }
    }
}

/// A writer never writes the same expression twice: two writers of the
/// same shape, the second further along than the first (its rank lower, as
/// every write makes it), hold different bytes.
pub proof fn lemma_written_once(w1: &ExpressionWriter, w2: &ExpressionWriter, d1: Seq<u8>, d2: Seq<u8>)
    requires
        w1.wf(),
        w2.wf(),
        w1.same_shape(w2),
        w1.written(d1, 0, d1.len() as int),
        w2.written(d2, 0, d2.len() as int),
        w2.rank() < w1.rank(),
    ensures
        d1 != d2,
{
    if d1 == d2 && !(w1.state is Dummy) && !(w2.state is Dummy) {
        w1.lemma_same_rank(w2, d1, 0, d1.len() as int, d2.len() as int);
    }
}


impl ExpressionWriter {
    /// The last byte of what a writer wrote shows its requirement: the
    /// required operator's byte, or an atom's.
    proof fn lemma_written_last_byte(&self, d: Seq<u8>, lo: int, hi: int)
        requires
            self.wf(),
            self.follows_requirement(),
            self.written(d, lo, hi),
            self.op_requirement is Some,
        ensures
            self.op_requirement matches Some(Some(op)) ==> d[lo + self.length - 1] == op.code(),
            self.op_requirement == Some(None::<Op>) ==> d[lo + self.length - 1] < 243,
    {
    }
}

/// A search task never tries the same expression twice: two writers of the
/// same task, the second further along than the first (at a later operator
/// of the task, or at the same one with a lower rank, as every write makes
/// it), hold different bytes.
pub proof fn lemma_task_written_once(w1: &TaskWriter, w2: &TaskWriter, d1: Seq<u8>, d2: Seq<u8>)
    requires
        w1.wf(),
        w2.wf(),
        w1.len_spec() == w2.len_spec(),
        w1.input_count_spec() == w2.input_count_spec(),
        w1.cap_spec() == w2.cap_spec(),
        w1.progress().0 == w2.progress().0,
        w1.holds_expression(d1),
        w2.holds_expression(d2),
        w1.progress().1 < w2.progress().1 || (w1.progress().1 == w2.progress().1 && w2.measure().1
            < w1.measure().1),
    ensures
        d1 != d2,
{
    if d1 == d2 {
        let c1 = &w1.current;
        let c2 = &w2.current;
        if w1.index == w2.index {
            assert(c1.same_shape(c2));
            lemma_written_once(c1, c2, d1, d2);
        } else {
            c1.lemma_written_last_byte(d1, 0, d1.len() as int);
            c2.lemma_written_last_byte(d2, 0, d2.len() as int);
            let o1 = w1.ops@[w1.index as int];
            let o2 = w2.ops@[w2.index as int];
            assert(o1 != o2);
            if o1 is Some && o2 is Some {
                if o1.unwrap().code() == o2.unwrap().code() {
                    lemma_code_injective(o1.unwrap(), o2.unwrap());
                }
            }
        }
    }
}


/// The tasks of different writer types have no top-level operator in
/// common.
proof fn lemma_task_ops_disjoint(t1: WriterType, t2: WriterType, i: int, j: int)
    requires
        t1 != t2,
        0 <= i < task_ops_spec(t1).len(),
        0 <= j < task_ops_spec(t2).len(),
    ensures
        task_ops_spec(t1)[i] != task_ops_spec(t2)[j],
{
}

/// Two tasks of a search for the same length but of different writer types
/// never try the same expression: whatever their writers hold differs.
pub proof fn lemma_tasks_written_apart(
    w1: &TaskWriter,
    w2: &TaskWriter,
    t1: WriterType,
    t2: WriterType,
    d1: Seq<u8>,
    d2: Seq<u8>,
)
    requires
        w1.wf(),
        w2.wf(),
        w1.len_spec() == w2.len_spec(),
        w1.progress().0 == task_ops_spec(t1),
        w2.progress().0 == task_ops_spec(t2),
        t1 != t2,
        w1.holds_expression(d1),
        w2.holds_expression(d2),
    ensures
        d1 != d2,
{
    if d1 == d2 {
        let c1 = &w1.current;
        let c2 = &w2.current;
        c1.lemma_written_last_byte(d1, 0, d1.len() as int);
        c2.lemma_written_last_byte(d2, 0, d2.len() as int);
        let o1 = w1.ops@[w1.index as int];
        let o2 = w2.ops@[w2.index as int];
        lemma_task_ops_disjoint(t1, t2, w1.index as int, w2.index as int);
        if o1 is Some && o2 is Some {
            if o1.unwrap().code() == o2.unwrap().code() {
                lemma_code_injective(o1.unwrap(), o2.unwrap());
            }
        }
    }
}


impl ExpressionWriter {
    /// Every constant a writer wrote is below its cap.
    proof fn lemma_constants_below_cap(&self, d: Seq<u8>, lo: int, hi: int)
        requires
            self.wf(),
            self.written(d, lo, hi),
        ensures
            forall|i: int| lo <= i < hi && d[i] <= 155 ==> d[i] < self.constant_cap,
        decreases self.length,
    {
        match self.state {
            EWState::OpState { op, left, right } => {
                let end = lo + self.length - 1;
                let mid = end - right.length;
                if op.arity() != 1 {
                    left.lemma_constants_below_cap(d, lo, mid);
                } else {
                    assert(left.wf());
                    assert(left.state is Dummy);
                    assert(left.written(d, lo, mid));
                    assert(forall|i: int| lo <= i < mid ==> d[i] == 255u8);
                }
                right.lemma_constants_below_cap(d, mid, end);
                assert(243 <= op.code());
                assert forall|i: int| lo <= i < hi && d[i] <= 155 implies d[i] < self.constant_cap by {
                    if i < mid {
                    } else if i < end {
                    } else if i == end {
                    } else {
                        assert(d[i] == 255u8);
                    }
                }
            },
            _ => {},
        }
    }
}

/// Every constant in what a writer wrote is below the writer's cap (the
/// bytes up to 155 are the constants): a cap of 0 allows none.
pub proof fn lemma_written_constants_below_cap(w: &ExpressionWriter, d: Seq<u8>)
    requires
        w.wf(),
        w.written(d, 0, d.len() as int),
    ensures
        forall|i: int| 0 <= i < d.len() && d[i] <= 155 ==> d[i] < w.constant_cap_spec(),
{
    w.lemma_constants_below_cap(d, 0, d.len() as int);
}

/// Every constant in what a task writer wrote is below the task's cap,
/// which is at most 156 (the constants a byte can hold); a cap of 0 allows
/// none.
pub proof fn lemma_task_written_constants_below_cap(w: &TaskWriter, d: Seq<u8>)
    requires
        w.wf(),
        w.holds_expression(d),
    ensures
        w.cap_spec() <= 156,
        forall|i: int| 0 <= i < d.len() && d[i] <= 155 ==> d[i] < w.cap_spec(),
{
    w.current.lemma_constants_below_cap(d, 0, d.len() as int);
}


/// The writers a run of writes passes through, each holding what it wrote
/// in `ds`: writers of one shape whose rank falls from each to the next, as
/// every successful write makes it.
pub open spec fn is_write_run(ws: Seq<ExpressionWriter>, ds: Seq<Seq<u8>>) -> bool {
    &&& ws.len() == ds.len()
    &&& ws.len() > 0
    &&& forall|i: int| 0 <= i < ws.len() ==> #[trigger] ws[i].wf() && ws[i].same_shape(&ws[0]) && ws[i].written(
        ds[i],
        0,
        ds[i].len() as int,
    )
    &&& forall|i: int| 0 <= i < ws.len() - 1 ==> #[trigger] ws[i + 1].rank() < ws[i].rank()
}

proof fn lemma_run_ranks(ws: Seq<ExpressionWriter>, ds: Seq<Seq<u8>>, i: int, j: int)
    requires
        is_write_run(ws, ds),
        0 <= i <= j < ws.len(),
    ensures
        ws[j].rank() + (j - i) <= ws[i].rank(),
    decreases j - i,
{
    if i < j {
        lemma_run_ranks(ws, ds, i, j - 1);
        assert(ws[(j - 1) + 1].rank() < ws[j - 1].rank());
    }
}

/// A run of writes is finite and repeats nothing: the expressions held
/// after the writes of a run are pairwise different, and a run has fewer
/// writes than the bound on the ranks of writers of its length.
pub proof fn lemma_write_run(ws: Seq<ExpressionWriter>, ds: Seq<Seq<u8>>)
    requires
        is_write_run(ws, ds),
    ensures
        forall|i: int, j: int| 0 <= i < j < ds.len() ==> ds[i] != ds[j],
        ws.len() <= bound(ws[0].len_spec() as nat),
{
    assert forall|i: int, j: int| 0 <= i < j < ds.len() implies ds[i] != ds[j] by {
        lemma_run_ranks(ws, ds, i, j);
        assert(ws[i].wf() && ws[j].wf());
        assert(ws[i].same_shape(&ws[j]));
        lemma_written_once(&ws[i], &ws[j], ds[i], ds[j]);
    }
    lemma_run_ranks(ws, ds, 0, ws.len() - 1);
    assert(ws[0].wf());
    ws[0].lemma_rank_bound();
}


/// `b` is further along its task than `a`: at a later operator, or at the
/// same one with a lower rank, as every successful write makes it.
pub open spec fn task_later(a: &TaskWriter, b: &TaskWriter) -> bool {
    b.progress().1 > a.progress().1 || (b.progress().1 == a.progress().1 && b.measure().1 < a.measure().1)
}

/// The task writers a run of writes of one task passes through, each
/// holding what it wrote in `ds`.
pub open spec fn is_task_run(ws: Seq<TaskWriter>, ds: Seq<Seq<u8>>) -> bool {
    &&& ws.len() == ds.len()
    &&& ws.len() > 0
    &&& forall|i: int| 0 <= i < ws.len() ==> {
        &&& #[trigger] ws[i].wf()
        &&& ws[i].len_spec() == ws[0].len_spec()
        &&& ws[i].input_count_spec() == ws[0].input_count_spec()
        &&& ws[i].cap_spec() == ws[0].cap_spec()
        &&& ws[i].progress().0 == ws[0].progress().0
        &&& ws[i].holds_expression(ds[i])
    }
    &&& forall|i: int| 0 <= i < ws.len() - 1 ==> task_later(&ws[i], #[trigger] &ws[i + 1])
}

/// The place of a task writer in its task, counted down to 0.
spec fn task_potential(w: &TaskWriter) -> int {
    (w.progress().0.len() - 1 - w.progress().1) * bound(w.len_spec() as nat) + w.measure().1
}

proof fn lemma_task_potential(a: &TaskWriter, b: &TaskWriter)
    requires
        a.wf(),
        b.wf(),
        a.len_spec() == b.len_spec(),
        a.progress().0 == b.progress().0,
        task_later(a, b),
    ensures
        task_potential(b) < task_potential(a),
        0 <= task_potential(b),
{
    a.current.lemma_rank_bound();
    b.current.lemma_rank_bound();
    let bb = bound(a.len_spec() as nat);
    let na = a.progress().0.len() - 1 - a.progress().1;
    let nb = b.progress().0.len() - 1 - b.progress().1;
    if b.progress().1 > a.progress().1 {
        assert(nb * bb + bb <= na * bb) by (nonlinear_arith)
            requires
                nb + 1 <= na,
        ;
    }
    assert(nb * bb >= 0) by (nonlinear_arith)
        requires
            nb >= 0,
            bb >= 0,
    ;
}

proof fn lemma_task_run_order(ws: Seq<TaskWriter>, ds: Seq<Seq<u8>>, i: int, j: int)
    requires
        is_task_run(ws, ds),
        0 <= i < j < ws.len(),
    ensures
        task_later(&ws[i], &ws[j]),
        task_potential(&ws[j]) + (j - i) <= task_potential(&ws[i]),
    decreases j - i,
{
    assert(ws[i].wf() && ws[j].wf());
    assert(task_later(&ws[j - 1], &ws[(j - 1) + 1]));
    assert(ws[j - 1].wf());
    lemma_task_potential(&ws[j - 1], &ws[j]);
    if i < j - 1 {
        lemma_task_run_order(ws, ds, i, j - 1);
    }
}

/// A run of writes of a task is finite and repeats nothing: the expressions
/// held after its writes are pairwise different, and there are at most as
/// many as the task's operators times the bound on the writers' ranks.
pub proof fn lemma_task_run(ws: Seq<TaskWriter>, ds: Seq<Seq<u8>>)
    requires
        is_task_run(ws, ds),
    ensures
        forall|i: int, j: int| 0 <= i < j < ds.len() ==> ds[i] != ds[j],
        ws.len() <= ws[0].progress().0.len() * bound(ws[0].len_spec() as nat),
{
    assert forall|i: int, j: int| 0 <= i < j < ds.len() implies ds[i] != ds[j] by {
        lemma_task_run_order(ws, ds, i, j);
        assert(ws[i].wf() && ws[j].wf());
        lemma_task_written_once(&ws[i], &ws[j], ds[i], ds[j]);
    }
    assert(ws[0].wf());
    let last = ws.len() - 1;
    if last > 0 {
        lemma_task_run_order(ws, ds, 0, last);
        assert(ws[last].wf());
        ws[last].current.lemma_rank_bound();
    }
    ws[0].current.lemma_rank_bound();
    let bb = bound(ws[0].len_spec() as nat);
    let n0 = ws[0].progress().0.len() - 1 - ws[0].progress().1;
    assert(n0 * bb + bb <= ws[0].progress().0.len() * bb) by (nonlinear_arith)
        requires
            n0 + 1 + ws[0].progress().1 == ws[0].progress().0.len(),
            ws[0].progress().1 >= 0,
            bb >= 0,
    ;
}

} // verus!
