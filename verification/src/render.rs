//! Rendering expressions as Rust source text.
use vstd::prelude::*;

use crate::expression::Expression;
use crate::number::Number;
use crate::pivot::{Op, Pivot, face_of, is_valid_code};
use crate::text::{decimal, decimal_chars, string_from_chars};

verus! {

/// The precedence of a constant or a variable: higher than any operator's.
pub open spec fn atom_prec() -> int {
    usize::MAX as int
}

/// The name of variable number `v`: `a`, `b`, `c`, ...
pub open spec fn var_char(v: u8) -> char {
    ((v + 97) as u8) as char
}

/// `t` in parentheses unless `bare`.
pub open spec fn parenthesize(t: Seq<char>, bare: bool) -> Seq<char> {
    if bare {
        t
    } else {
        seq!['('] + t + seq![')']
    }
}

/// The rendering of the subexpression whose last byte is `codes[end - 1]`:
/// its text, its precedence, and the number of bytes it spans; `None` if
/// the bytes there do not form an expression.
///
/// A binary operator's left operand is parenthesized when it binds looser
/// than the operator, its right operand when it does not bind tighter;
/// a unary operator's operand when it binds looser.
pub open spec fn render(codes: Seq<u8>, end: int) -> Option<(Seq<char>, int, int)>
    decreases end,
{
    if end <= 0 || end > codes.len() || !is_valid_code(codes[end - 1]) {
        None
    } else {
        match Pivot::decode(codes[end - 1]) {
            Pivot::Nop => match render(codes, end - 1) {
                Some((t, p, l)) => Some((t, p, l + 1)),
                None => None,
            },
            Pivot::ConstPivot(c) => Some((decimal(c as nat), atom_prec(), 1)),
            Pivot::VarPivot(v) => Some((seq![var_char(v)], atom_prec(), 1)),
            Pivot::OpPivot(op) => {
                if op.arity() == 1 {
                    match render(codes, end - 1) {
                        Some((t, p, l)) => Some(
                            (face_of(op) + parenthesize(t, p >= op.prec()), op.prec() as int, l + 1),
                        ),
                        None => None,
                    }
                } else {
                    match render(codes, end - 1) {
                        None => None,
                        Some((rt, rp, rl)) => {
                            if rl < 1 || end - 1 - rl < 0 {
                                None
                            } else {
                                match render(codes, end - 1 - rl) {
                                    None => None,
                                    Some((lt, lp, ll)) => Some(
                                        (
                                            parenthesize(lt, lp >= op.prec()) + face_of(op)
                                                + parenthesize(rt, rp > op.prec()),
                                            op.prec() as int,
                                            1 + ll + rl,
                                        ),
                                    ),
                                }
                            }
                        },
                    }
                }
            },
        }
    }
}

/// A rendered subexpression spans at least one byte and no more bytes than
/// precede its end.
pub proof fn lemma_render_span(codes: Seq<u8>, end: int)
    requires
        render(codes, end) is Some,
    ensures
        1 <= render(codes, end).unwrap().2 <= end,
    decreases end,
{
    match Pivot::decode(codes[end - 1]) {
        Pivot::Nop => lemma_render_span(codes, end - 1),
        Pivot::OpPivot(op) => {
            lemma_render_span(codes, end - 1);
            if op.arity() != 1 {
                let rl = render(codes, end - 1).unwrap().2;
                lemma_render_span(codes, end - 1 - rl);
            }
        },
        _ => {},
    }
}

/// Whether the whole of `codes` renders as one expression.
pub open spec fn renderable(codes: Seq<u8>) -> bool {
    render(codes, codes.len() as int) is Some
}

/// The text of the expression `codes`.
pub open spec fn render_text(codes: Seq<u8>) -> Seq<char> {
    render(codes, codes.len() as int).unwrap().0
}

fn wrap_parens(t: Vec<char>, bare: bool) -> (r: Vec<char>)
    ensures
        r@ == parenthesize(t@, bare),
{
    if bare {
        t
    } else {
        let ghost inner = t@;
        let mut r = Vec::new();
        r.push('(');
        let mut t = t;
        r.append(&mut t);
        r.push(')');
        assert(r@ =~= parenthesize(inner, bare));
        r
    }
}

fn face_chars(op: Op) -> (r: Vec<char>)
    ensures
        r@ == face_of(op),
{
    let r = match op {
        Op::NEG => vec!['-'],
        Op::NOT => vec!['!'],
        Op::MUL => vec!['*'],
        Op::DIV => vec!['/'],
        Op::MOD => vec!['%'],
        Op::ADD => vec!['+'],
        Op::SUB => vec!['-'],
        Op::LSL => vec!['<', '<'],
        Op::LSR => vec!['>', '>'],
        Op::AND => vec!['&'],
        Op::XOR => vec!['^'],
        Op::ORR => vec!['|'],
    };
    assert(r@ =~= face_of(op));
    r
}

impl<N: Number, const C: usize> Expression<N, C> {
    /// Render the subexpression whose last byte is at `end - 1`: its text,
    /// its precedence and the number of bytes it spans.
    fn stringify(&self, end: usize) -> (r: (Vec<char>, usize, usize))
        requires
            render(self@, end as int) is Some,
        ensures
            (r.0@, r.1 as int, r.2 as int) == render(self@, end as int).unwrap(),
        decreases end,
    {
        proof {
            lemma_render_span(self@, end as int);
        }
        let code = self.field()[end - 1];
        match Pivot::decode(code) {
            Pivot::Nop => {
                let (a, b, c) = self.stringify(end - 1);
                proof {
                    lemma_render_span(self@, end - 1);
                }
                (a, b, c + 1)
            },
            Pivot::ConstPivot(p) => (decimal_chars(p as u128), usize::MAX, 1),
            Pivot::VarPivot(v) => {
                let mut t = Vec::new();
                t.push(((v + 97) as u8) as char);
                assert(t@ =~= seq![var_char(v)]);
                (t, usize::MAX, 1)
            },
            Pivot::OpPivot(op) => {
                if op.arity() == 1 {
                    let (right, right_prec, right_len) = self.stringify(end - 1);
                    proof {
                        lemma_render_span(self@, end - 1);
                    }
                    let right_render = wrap_parens(right, right_prec >= op.prec());
                    let mut text = face_chars(op);
                    let mut rr = right_render;
                    text.append(&mut rr);
                    (text, op.prec(), 1 + right_len)
                } else {
                    let (right, right_prec, right_len) = self.stringify(end - 1);
                    proof {
                        lemma_render_span(self@, end - 1);
                    }
                    let (left, left_prec, left_len) = self.stringify(end - 1 - right_len);
                    proof {
                        lemma_render_span(self@, end - 1 - right_len);
                    }
                    let mut text = wrap_parens(left, left_prec >= op.prec());
                    let mut face = face_chars(op);
                    let mut rr = wrap_parens(right, right_prec > op.prec());
                    text.append(&mut face);
                    text.append(&mut rr);
                    (text, op.prec(), 1 + left_len + right_len)
                }
            },
        }
    }

    /// Render the expression as Rust source text, with the variables named
    /// `a`, `b`, `c`, and so on.
    pub fn to_string(&self) -> (r: String)
        requires
            renderable(self@),
        ensures
            r@ == render_text(self@),
    {
        let (text, _, _) = self.stringify(self.field().len());
        string_from_chars(&text)
    }
}

} // verus!
