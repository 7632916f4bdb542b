//! The byte code in which expressions are stored.
//!
//! An expression is a sequence of bytes read as a postfix program. Each byte
//! is a "pivot": an operator, a constant, a variable, or a no-op that stands
//! for a character of the rendered text which carries no meaning of its own
//! (a parenthesis, or the second character of `<<`).
use vstd::prelude::*;

verus! {

/// One decoded byte of an expression.
#[derive(Copy, Clone, PartialEq, Eq, Structural, Debug)]
pub enum Pivot {
    Nop,
    OpPivot(Op),
    ConstPivot(u8),
    VarPivot(u8),
}

/// The operators an expression may contain, in the order in which the
/// enumeration visits them (`NEG` is reached only through parsing).
#[derive(Copy, Clone, PartialEq, Eq, Structural, Debug)]
#[allow(non_camel_case_types)]
pub enum Op {
    NOT,
    NEG,
    MUL,
    DIV,
    MOD,
    ADD,
    SUB,
    LSL,
    LSR,
    AND,
    XOR,
    ORR,
}

/// Every operator, in the order the tokenizer of the parser tries them.
pub open spec fn all_ops_seq() -> Seq<Op> {
    seq![Op::NOT, Op::NEG, Op::MUL, Op::DIV, Op::MOD, Op::ADD, Op::SUB, Op::LSL, Op::LSR, Op::AND, Op::XOR, Op::ORR]
}

/// The operators in the order the tokenizer of the parser tries them.
pub fn all_ops() -> (r: Vec<Op>)
    ensures
        r@ == all_ops_seq(),
{
    let r = vec![Op::NOT, Op::NEG, Op::MUL, Op::DIV, Op::MOD, Op::ADD, Op::SUB, Op::LSL, Op::LSR, Op::AND, Op::XOR, Op::ORR];
    assert(r@ =~= all_ops_seq());
    r
}

/// The position of an operator in the enumeration order that starts at
/// `Op::first()` (`NEG` has none).
pub open spec fn op_rank(op: Op) -> int {
    match op {
        Op::NEG => -1,
        Op::NOT => 0,
        Op::MUL => 1,
        Op::DIV => 2,
        Op::MOD => 3,
        Op::ADD => 4,
        Op::SUB => 5,
        Op::LSL => 6,
        Op::LSR => 7,
        Op::AND => 8,
        Op::XOR => 9,
        Op::ORR => 10,
    }
}

/// A byte that `Op::interpret_code` accepts.
pub open spec fn is_valid_code(code: u8) -> bool {
    code <= 155 || code >= 230
}

/// A pivot that `Pivot::encode` can store and decode back.
pub open spec fn is_encodable(p: Pivot) -> bool {
    match p {
        Pivot::ConstPivot(c) => c <= 155,
        Pivot::VarPivot(v) => v <= 12,
        _ => true,
    }
}

impl Op {
    /// The first operator of the enumeration order.
    pub fn first() -> (r: Op)
        ensures
            r == Op::NOT,
            op_rank(r) == 0,
    {
        Op::NOT
    }

    /// The operator after `self` in the enumeration order (`NEG` leads to
    /// `NOT`, `ORR` to nothing).
    #[verifier::allow_in_spec]
    pub fn next(self) -> Option<Op>
        returns
            (match self {
                Op::NEG => Some(Op::NOT),
                Op::NOT => Some(Op::MUL),
                Op::MUL => Some(Op::DIV),
                Op::DIV => Some(Op::MOD),
                Op::MOD => Some(Op::ADD),
                Op::ADD => Some(Op::SUB),
                Op::SUB => Some(Op::LSL),
                Op::LSL => Some(Op::LSR),
                Op::LSR => Some(Op::AND),
                Op::AND => Some(Op::XOR),
                Op::XOR => Some(Op::ORR),
                Op::ORR => None,
            }),
    {
        match self {
            Op::NEG => Some(Op::NOT),
            Op::NOT => Some(Op::MUL),
            Op::MUL => Some(Op::DIV),
            Op::DIV => Some(Op::MOD),
            Op::MOD => Some(Op::ADD),
            Op::ADD => Some(Op::SUB),
            Op::SUB => Some(Op::LSL),
            Op::LSL => Some(Op::LSR),
            Op::LSR => Some(Op::AND),
            Op::AND => Some(Op::XOR),
            Op::XOR => Some(Op::ORR),
            Op::ORR => None,
        }
    }

    /// The number of characters of the operator's symbol.
    #[verifier::allow_in_spec]
    pub fn len(self) -> usize
        returns
            (match self {
                Op::LSL | Op::LSR => 2usize,
                _ => 1usize,
            }),
    {
        match self {
            Op::NEG => 1,
            Op::NOT => 1,
            Op::MUL => 1,
            Op::DIV => 1,
            Op::MOD => 1,
            Op::ADD => 1,
            Op::SUB => 1,
            Op::LSL => 2,
            Op::LSR => 2,
            Op::AND => 1,
            Op::XOR => 1,
            Op::ORR => 1,
        }
    }

    /// The number of operands: 1 for `!` and unary `-`, 2 otherwise.
    #[verifier::allow_in_spec]
    pub fn arity(self) -> usize
        returns
            (match self {
                Op::NEG | Op::NOT => 1usize,
                _ => 2usize,
            }),
    {
        match self {
            Op::NEG => 1,
            Op::NOT => 1,
            Op::MUL => 2,
            Op::DIV => 2,
            Op::MOD => 2,
            Op::ADD => 2,
            Op::SUB => 2,
            Op::LSL => 2,
            Op::LSR => 2,
            Op::AND => 2,
            Op::XOR => 2,
            Op::ORR => 2,
        }
    }

    /// Rust's precedence level of the operator (higher binds tighter).
    #[verifier::allow_in_spec]
    pub fn prec(self) -> usize
        returns
            (match self {
                Op::NEG | Op::NOT => 6usize,
                Op::MUL | Op::DIV | Op::MOD => 5usize,
                Op::ADD | Op::SUB => 4usize,
                Op::LSL | Op::LSR => 3usize,
                Op::AND => 2usize,
                Op::XOR => 1usize,
                Op::ORR => 0usize,
            }),
    {
        match self {
            Op::NEG => 6,
            Op::NOT => 6,
            Op::MUL => 5,
            Op::DIV => 5,
            Op::MOD => 5,
            Op::ADD => 4,
            Op::SUB => 4,
            Op::LSL => 3,
            Op::LSR => 3,
            Op::AND => 2,
            Op::XOR => 1,
            Op::ORR => 0,
        }
    }

    /// The byte that stands for the operator in an expression.
    #[verifier::allow_in_spec]
    pub fn code(self) -> u8
        returns
            (match self {
                Op::NEG => 243u8,
                Op::NOT => 254u8,
                Op::MUL => 253u8,
                Op::DIV => 252u8,
                Op::MOD => 251u8,
                Op::ADD => 250u8,
                Op::SUB => 249u8,
                Op::LSL => 248u8,
                Op::LSR => 247u8,
                Op::AND => 246u8,
                Op::XOR => 245u8,
                Op::ORR => 244u8,
            }),
    {
        match self {
            Op::NEG => 243,
            Op::NOT => 254,
            Op::MUL => 253,
            Op::DIV => 252,
            Op::MOD => 251,
            Op::ADD => 250,
            Op::SUB => 249,
            Op::LSL => 248,
            Op::LSR => 247,
            Op::AND => 246,
            Op::XOR => 245,
            Op::ORR => 244,
        }
    }

    /// The operator's symbol as it is written in Rust source.
    pub fn render_face(self) -> (r: &'static str)
        ensures
            r@ == face_of(self),
    {
        proof {
            reveal_strlit("-");
            reveal_strlit("!");
            reveal_strlit("*");
            reveal_strlit("/");
            reveal_strlit("%");
            reveal_strlit("+");
            reveal_strlit("<<");
            reveal_strlit(">>");
            reveal_strlit("&");
            reveal_strlit("^");
            reveal_strlit("|");
        }
        match self {
            Op::NEG => "-",
            Op::NOT => "!",
            Op::MUL => "*",
            Op::DIV => "/",
            Op::MOD => "%",
            Op::ADD => "+",
            Op::SUB => "-",
            Op::LSL => "<<",
            Op::LSR => ">>",
            Op::AND => "&",
            Op::XOR => "^",
            Op::ORR => "|",
        }
    }

    /// Decode one byte of an expression.
    #[verifier::allow_in_spec]
    pub fn interpret_code(code: u8) -> Pivot
        requires
            is_valid_code(code),
        returns
            (if code == 255 {
                Pivot::Nop
            } else if code >= 243 {
                Pivot::OpPivot(op_of_code(code))
            } else if code >= 230 {
                Pivot::VarPivot((242 - code) as u8)
            } else {
                Pivot::ConstPivot(code)
            }),
    {
        match code {
            255 => Pivot::Nop,
            243 => Pivot::OpPivot(Op::NEG),
            254 => Pivot::OpPivot(Op::NOT),
            253 => Pivot::OpPivot(Op::MUL),
            252 => Pivot::OpPivot(Op::DIV),
            251 => Pivot::OpPivot(Op::MOD),
            250 => Pivot::OpPivot(Op::ADD),
            249 => Pivot::OpPivot(Op::SUB),
            248 => Pivot::OpPivot(Op::LSL),
            247 => Pivot::OpPivot(Op::LSR),
            246 => Pivot::OpPivot(Op::AND),
            245 => Pivot::OpPivot(Op::XOR),
            244 => Pivot::OpPivot(Op::ORR),
            _ => {
                if code <= 155 {
                    Pivot::ConstPivot(code)
                } else {
                    Pivot::VarPivot(242 - code)
                }
            },
        }
    }

    /// The highest byte that stands for a variable (variable `a`).
    pub fn highest_unused_code() -> (r: u8)
        ensures
            r == 242,
    {
        242
    }
}

/// The operator whose code is `code`, for a code in `243..=254`.
pub open spec fn op_of_code(code: u8) -> Op {
    if code == 243 {
        Op::NEG
    } else if code == 254 {
        Op::NOT
    } else if code == 253 {
        Op::MUL
    } else if code == 252 {
        Op::DIV
    } else if code == 251 {
        Op::MOD
    } else if code == 250 {
        Op::ADD
    } else if code == 249 {
        Op::SUB
    } else if code == 248 {
        Op::LSL
    } else if code == 247 {
        Op::LSR
    } else if code == 246 {
        Op::AND
    } else if code == 245 {
        Op::XOR
    } else {
        Op::ORR
    }
}

/// The symbol of an operator.
pub open spec fn face_of(op: Op) -> Seq<char> {
    match op {
        Op::NEG => seq!['-'],
        Op::NOT => seq!['!'],
        Op::MUL => seq!['*'],
        Op::DIV => seq!['/'],
        Op::MOD => seq!['%'],
        Op::ADD => seq!['+'],
        Op::SUB => seq!['-'],
        Op::LSL => seq!['<', '<'],
        Op::LSR => seq!['>', '>'],
        Op::AND => seq!['&'],
        Op::XOR => seq!['^'],
        Op::ORR => seq!['|'],
    }
}

impl Pivot {
    /// The byte that stores this pivot.
    #[verifier::allow_in_spec]
    pub fn encode(self) -> u8
        requires
            self matches Pivot::VarPivot(v) ==> v <= 242,
        returns
            (match self {
                Pivot::Nop => 255u8,
                Pivot::OpPivot(op) => op.code(),
                Pivot::ConstPivot(c) => c,
                Pivot::VarPivot(v) => (242 - v) as u8,
            }),
    {
        match self {
            Pivot::Nop => 255,
            Pivot::OpPivot(op) => op.code(),
            Pivot::ConstPivot(c) => c,
            Pivot::VarPivot(v) => 242 - v,
        }
    }

    /// Decode one byte of an expression (the same as `Op::interpret_code`).
    #[verifier::allow_in_spec]
    pub fn decode(code: u8) -> Pivot
        requires
            is_valid_code(code),
        returns
            Op::interpret_code(code),
    {
        Op::interpret_code(code)
    }
}

/// Decoding an encoded pivot gives the pivot back.
pub proof fn lemma_decode_encode(p: Pivot)
    requires
        is_encodable(p),
    ensures
        is_valid_code(p.encode()),
        Pivot::decode(p.encode()) == p,
{
}

/// Encoding a decoded byte gives the byte back.
pub proof fn lemma_encode_decode(code: u8)
    requires
        is_valid_code(code),
    ensures
        is_encodable(Pivot::decode(code)),
        Pivot::decode(code).encode() == code,
{
}

/// The enumeration order: `next` moves from each operator but `NEG` and
/// `ORR` to the operator of the next rank, and `first` has rank zero, so
/// stepping from `first` visits every operator but `NEG` once.
pub proof fn lemma_next_steps_rank(op: Op)
    ensures
        op != Op::NEG ==> 0 <= op_rank(op) <= 10,
        op == Op::ORR <==> op.next() is None,
        op != Op::NEG && op != Op::ORR ==> op_rank(op.next().unwrap()) == op_rank(op) + 1,
        forall|o: Op| o != Op::NEG && op != Op::NEG && op_rank(o) == op_rank(op) ==> o == op,
{
}

} // verus!
