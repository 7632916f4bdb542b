//! Parsing expressions from Rust source text.
use vstd::prelude::*;
use core::marker::PhantomData;

use crate::expression::{
    Expression, height_after, lemma_height_concat, lemma_runs_concat, lemma_single_run, runs_ok,
    runs_ok_from, step_ok,
};
use crate::number::Number;
use crate::pivot::{Op, Pivot, all_ops, all_ops_seq, is_valid_code, op_of_code};
use crate::render::{render, renderable};
use crate::text::{chars_of, string_from_chars};

verus! {

/// The number of bytes of the tree of pivots whose last byte is
/// `codes[end - 1]`, reading constants (`0..=155`) and variables (any of
/// the 26 letters) as leaves and the operator codes as inner nodes; `None`
/// if there is no such tree there.
pub open spec fn tree_len(codes: Seq<u8>, end: int) -> Option<int>
    decreases end,
{
    if end <= 0 || end > codes.len() {
        None
    } else {
        let c = codes[end - 1];
        if c <= 155 || (217 <= c && c <= 242) {
            Some(1)
        } else if 243 <= c && c <= 254 {
            let op = op_of_code(c);
            if op.arity() == 1 {
                match tree_len(codes, end - 1) {
                    Some(k) => Some(k + 1),
                    None => None,
                }
            } else {
                match tree_len(codes, end - 1) {
                    None => None,
                    Some(r) => {
                        if r < 1 || end - 1 - r < 0 {
                            None
                        } else {
                            match tree_len(codes, end - 1 - r) {
                                Some(l) => Some(1 + l + r),
                                None => None,
                            }
                        }
                    },
                }
            }
        } else {
            None
        }
    }
}

/// The bytes form exactly one expression tree, with no byte left over.
pub open spec fn is_tree(codes: Seq<u8>) -> bool {
    tree_len(codes, codes.len() as int) == Some(codes.len() as int)
}

/// The messages with which parsing fails.
pub open spec fn is_parse_error(m: Seq<char>) -> bool {
    ||| m == "constants above 155 are not supported in Expressions"@
    ||| m == "mismatched parentheses"@
    ||| m == "invalid syntax"@
    ||| exists|rest: Seq<char>|
        m == "can't parse a valid token from the start of this string: "@ + rest
}

pub proof fn lemma_tree_len_bounds(codes: Seq<u8>, end: int)
    requires
        tree_len(codes, end) is Some,
    ensures
        1 <= tree_len(codes, end).unwrap() <= end,
    decreases end,
{
    let c = codes[end - 1];
    if 243 <= c && c <= 254 {
        lemma_tree_len_bounds(codes, end - 1);
        let op = op_of_code(c);
        if op.arity() != 1 {
            let r = tree_len(codes, end - 1).unwrap();
            lemma_tree_len_bounds(codes, end - 1 - r);
        }
    }
}

/// A tree is unaffected by what follows it.
proof fn lemma_tree_len_append(s: Seq<u8>, t: Seq<u8>, end: int)
    requires
        tree_len(s, end) is Some,
    ensures
        tree_len(s + t, end) == tree_len(s, end),
    decreases end,
{
    lemma_tree_len_bounds(s, end);
    assert((s + t)[end - 1] == s[end - 1]);
    let c = s[end - 1];
    if 243 <= c && c <= 254 {
        lemma_tree_len_append(s, t, end - 1);
        let op = op_of_code(c);
        if op.arity() != 1 {
            let r = tree_len(s, end - 1).unwrap();
            lemma_tree_len_append(s, t, end - 1 - r);
        }
    }
}

/// A tree is unaffected by what precedes it.
proof fn lemma_tree_len_prepend(p: Seq<u8>, s: Seq<u8>, end: int)
    requires
        tree_len(s, end) is Some,
    ensures
        tree_len(p + s, p.len() + end) == tree_len(s, end),
    decreases end,
{
    lemma_tree_len_bounds(s, end);
    assert((p + s)[p.len() + end - 1] == s[end - 1]);
    let c = s[end - 1];
    if 243 <= c && c <= 254 {
        lemma_tree_len_prepend(p, s, end - 1);
        let op = op_of_code(c);
        if op.arity() != 1 {
            let r = tree_len(s, end - 1).unwrap();
            lemma_tree_len_prepend(p, s, end - 1 - r);
        }
    }
}

/// Putting a unary operator after a tree makes a tree.
pub proof fn lemma_tree_unary(x: Seq<u8>, op: Op)
    requires
        is_tree(x),
        op.arity() == 1,
    ensures
        is_tree(x.push(op.code())),
{
    let s = x.push(op.code());
    assert(s =~= x + seq![op.code()]);
    lemma_tree_len_append(x, seq![op.code()], x.len() as int);
    assert(op_of_code(op.code()) == op);
}

/// Putting a binary operator after two trees makes a tree.
pub proof fn lemma_tree_binary(l: Seq<u8>, r: Seq<u8>, op: Op)
    requires
        is_tree(l),
        is_tree(r),
        op.arity() == 2,
    ensures
        is_tree((l + r).push(op.code())),
{
    let s = (l + r).push(op.code());
    lemma_tree_len_prepend(l, r, r.len() as int);
    assert(s =~= (l + r) + seq![op.code()]);
    lemma_tree_len_append(l + r, seq![op.code()], (l + r).len() as int);
    assert(s =~= l + (r + seq![op.code()]));
    lemma_tree_len_append(l, r + seq![op.code()], l.len() as int);
    assert(op_of_code(op.code()) == op);
}

/// A token of the parser as a value: an operator still to be applied, or
/// the bytes of a subexpression already assembled.
pub enum Lexeme {
    Op(Op),
    Part(Seq<u8>),
}

/// The number of decimal digits in a row at `chars[pos..hi]`.
pub open spec fn digit_run(chars: Seq<char>, pos: int, hi: int) -> nat
    decreases hi - pos,
{
    if 0 <= pos < hi && pos < chars.len() && '0' <= chars[pos] <= '9' {
        1 + digit_run(chars, pos + 1, hi)
    } else {
        0
    }
}

pub proof fn lemma_digit_run_bound(chars: Seq<char>, pos: int, hi: int)
    ensures
        digit_run(chars, pos, hi) > 0 ==> pos + digit_run(chars, pos, hi) <= hi,
    decreases hi - pos,
{
    if 0 <= pos < hi && pos < chars.len() && '0' <= chars[pos] <= '9' {
        lemma_digit_run_bound(chars, pos + 1, hi);
    }
}

/// The value of the first `k` digits at `chars[pos..]`, where the digits
/// after the value first exceeds 155 are no longer added.
pub open spec fn digits_value(chars: Seq<char>, pos: int, k: nat) -> int
    decreases k,
{
    if k == 0 {
        0
    } else {
        let v = digits_value(chars, pos, (k - 1) as nat);
        if v <= 155 {
            v * 10 + ((chars[pos + k - 1] as u32) - 48)
        } else {
            v
        }
    }
}

/// Whether the symbol of `op` starts at `chars[pos]`, within `hi`.
pub open spec fn face_matches(chars: Seq<char>, pos: int, hi: int, op: Op) -> bool {
    match op {
        Op::LSL => pos + 1 < hi && chars[pos] == '<' && chars[pos + 1] == '<',
        Op::LSR => pos + 1 < hi && chars[pos] == '>' && chars[pos + 1] == '>',
        Op::NEG | Op::SUB => chars[pos] == '-',
        Op::NOT => chars[pos] == '!',
        Op::MUL => chars[pos] == '*',
        Op::DIV => chars[pos] == '/',
        Op::MOD => chars[pos] == '%',
        Op::ADD => chars[pos] == '+',
        Op::AND => chars[pos] == '&',
        Op::XOR => chars[pos] == '^',
        Op::ORR => chars[pos] == '|',
    }
}

/// The first operator, from the `k`-th on in `all_ops_seq()`, whose symbol
/// starts at `chars[pos]`; a unary one is not taken right after an
/// assembled subexpression.
pub open spec fn find_op(chars: Seq<char>, pos: int, hi: int, after_part: bool, k: int) -> Option<Op>
    decreases 12 - k,
{
    if k < 0 || k >= 12 {
        None
    } else {
        let op = all_ops_seq()[k];
        if !(after_part && op.arity() == 1) && face_matches(chars, pos, hi, op) {
            Some(op)
        } else {
            find_op(chars, pos, hi, after_part, k + 1)
        }
    }
}

pub proof fn lemma_find_op_fits(chars: Seq<char>, pos: int, hi: int, after_part: bool, k: int)
    requires
        pos < hi,
    ensures
        find_op(chars, pos, hi, after_part, k) matches Some(op) ==> pos + op.len() <= hi,
    decreases 12 - k,
{
    if 0 <= k < 12 {
        lemma_find_op_fits(chars, pos, hi, after_part, k + 1);
    }
}

/// The position of the parenthesis that closes the nesting `depth` open at
/// `chars[finger]`, looking no further than `hi`.
pub open spec fn close_paren(chars: Seq<char>, finger: int, hi: int, depth: int) -> Option<int>
    decreases hi - finger,
{
    if finger >= hi {
        None
    } else {
        let d = if chars[finger] == '(' {
            depth + 1
        } else if chars[finger] == ')' {
            depth - 1
        } else {
            depth
        };
        if d == 0 {
            Some(finger)
        } else {
            close_paren(chars, finger + 1, hi, d)
        }
    }
}

pub proof fn lemma_close_paren_bounds(chars: Seq<char>, finger: int, hi: int, depth: int)
    requires
        close_paren(chars, finger, hi, depth) is Some,
    ensures
        finger <= close_paren(chars, finger, hi, depth).unwrap() < hi,
    decreases hi - finger,
{
    let d = if chars[finger] == '(' {
        depth + 1
    } else if chars[finger] == ')' {
        depth - 1
    } else {
        depth
    };
    if d != 0 {
        lemma_close_paren_bounds(chars, finger + 1, hi, d);
    }
}

/// The message of the error for a character that starts no token.
pub open spec fn unknown_token_message(rest: Seq<char>) -> Seq<char> {
    "can't parse a valid token from the start of this string: "@ + rest
}

/// The parser's reading of `chars[lo..hi]`: the bytes of the expression,
/// or the message of the error.
pub open spec fn parse_chars(chars: Seq<char>, lo: int, hi: int) -> Result<Seq<u8>, Seq<char>>
    decreases hi - lo, 1int,
{
    if lo > hi {
        Err("invalid syntax"@)
    } else {
        match lex_from(chars, lo, hi, Seq::empty()) {
            Err(m) => Err(m),
            Ok(toks) => assemble(toks),
        }
    }
}

/// The tokens of `chars[pos..hi]`, after those in `acc`: the first error
/// met while reading them, if any.
pub open spec fn lex_from(chars: Seq<char>, pos: int, hi: int, acc: Seq<Lexeme>) -> Result<Seq<Lexeme>, Seq<char>>
    decreases hi - pos, 0int,
{
    if pos >= hi {
        Ok(acc)
    } else {
        let c = chars[pos];
        if 'a' <= c <= 'z' {
            lex_from(chars, pos + 1, hi, acc.push(Lexeme::Part(seq![(242 - ((c as u32) - 97)) as u8])))
        } else {
            let n = digit_run(chars, pos, hi);
            if n > 0 {
                let v = digits_value(chars, pos, n);
                if v > 155 {
                    Err("constants above 155 are not supported in Expressions"@)
                } else {
                    proof {
                        lemma_digit_run_bound(chars, pos, hi);
                    }
                    lex_from(chars, pos + n, hi, acc.push(Lexeme::Part(seq![v as u8])))
                }
            } else {
                let after_part = acc.len() > 0 && acc.last() is Part;
                match find_op(chars, pos, hi, after_part, 0) {
                    Some(op) => {
                        proof {
                            lemma_find_op_fits(chars, pos, hi, after_part, 0);
                        }
                        lex_from(chars, pos + op.len(), hi, acc.push(Lexeme::Op(op)))
                    },
                    None => {
                        if c == '(' {
                            match close_paren(chars, pos + 1, hi, 1) {
                                None => Err("mismatched parentheses"@),
                                Some(f) => {
                                    proof {
                                        lemma_close_paren_bounds(chars, pos + 1, hi, 1);
                                    }
                                    match parse_chars(chars, pos + 1, f) {
                                        Err(m) => Err(m),
                                        Ok(field) => lex_from(chars, f + 1, hi, acc.push(Lexeme::Part(field))),
                                    }
                                },
                            }
                        } else {
                            Err(unknown_token_message(chars.subrange(pos, hi)))
                        }
                    },
                }
            }
        }
    }
}

/// The choice of the operator token to apply next, scanning from `j` with
/// `best` chosen so far: the highest precedence wins; on a tie a unary one
/// replaces the earlier choice and a binary one does not.
pub open spec fn select_from(toks: Seq<Lexeme>, j: int, best: Option<(int, Op)>) -> Option<(int, Op)>
    decreases toks.len() - j,
{
    if j < 0 || j >= toks.len() {
        best
    } else {
        let nb = match toks[j] {
            Lexeme::Op(op) => match best {
                None => Some((j, op)),
                Some((_, b)) => if op.prec() > b.prec() || (op.prec() == b.prec() && op.arity() == 1) {
                    Some((j, op))
                } else {
                    best
                },
            },
            Lexeme::Part(_) => best,
        };
        select_from(toks, j + 1, nb)
    }
}

/// The operator token that the assembling step applies next.
pub open spec fn select(toks: Seq<Lexeme>) -> Option<(int, Op)> {
    select_from(toks, 0, None)
}

pub proof fn lemma_select_from(toks: Seq<Lexeme>, j: int, best: Option<(int, Op)>)
    requires
        0 <= j <= toks.len(),
        best matches Some((i, op)) ==> 0 <= i < toks.len() && toks[i] == Lexeme::Op(op),
        best is None ==> forall|i: int| 0 <= i < j ==> #[trigger] toks[i] is Part,
    ensures
        select_from(toks, j, best) matches Some((i, op)) ==> 0 <= i < toks.len() && toks[i] == Lexeme::Op(op),
        select_from(toks, j, best) is None ==> forall|i: int| 0 <= i < toks.len() ==> #[trigger] toks[i] is Part,
    decreases toks.len() - j,
{
    if j < toks.len() {
        let nb = match toks[j] {
            Lexeme::Op(op) => match best {
                None => Some((j, op)),
                Some((_, b)) => if op.prec() > b.prec() || (op.prec() == b.prec() && op.arity() == 1) {
                    Some((j, op))
                } else {
                    best
                },
            },
            Lexeme::Part(_) => best,
        };
        lemma_select_from(toks, j + 1, nb);
    }
}

/// Applying the selected operator to its operands, over and over, until no
/// operator token is left: the one subexpression that remains, or the
/// error.
pub open spec fn assemble(toks: Seq<Lexeme>) -> Result<Seq<u8>, Seq<char>>
    decreases toks.len(),
{
    match select(toks) {
        None => {
            if toks.len() == 1 && toks[0] is Part {
                Ok(toks[0]->Part_0)
            } else {
                Err("invalid syntax"@)
            }
        },
        Some((i, op)) => {
            proof {
                lemma_select_from(toks, 0, None);
            }
            if i < 0 || i >= toks.len() - 1 {
                Err("invalid syntax"@)
            } else if op.arity() == 1 {
                match toks[i + 1] {
                    Lexeme::Part(f) => assemble(
                        toks.take(i) + seq![Lexeme::Part(f.push(op.code()))] + toks.skip(i + 2),
                    ),
                    Lexeme::Op(_) => Err("invalid syntax"@),
                }
            } else if i == 0 {
                Err("invalid syntax"@)
            } else {
                match (toks[i - 1], toks[i + 1]) {
                    (Lexeme::Part(l), Lexeme::Part(r)) => assemble(
                        toks.take(i - 1) + seq![Lexeme::Part((l + r).push(op.code()))] + toks.skip(i + 2),
                    ),
                    _ => Err("invalid syntax"@),
                }
            }
        },
    }
}

/// A token of the parser: an operator still to be applied, or a
/// subexpression already assembled.
enum Token {
    OpTok(Op),
    Part(Vec<u8>),
}

spec fn tokens_ok(toks: Seq<Token>) -> bool {
    forall|i: int| 0 <= i < toks.len() ==> (#[trigger] toks[i] matches Token::Part(f) ==> is_tree(f@))
}

spec fn is_op_token(t: Token) -> bool {
    t matches Token::OpTok(_)
}

fn error_from(msg: &str) -> (r: Vec<char>)
    ensures
        r@ == msg@,
{
    chars_of(msg)
}

fn is_letter(c: char) -> (r: bool)
    ensures
        r == ('a' <= c && c <= 'z'),
{
    'a' <= c && c <= 'z'
}

fn is_digit(c: char) -> (r: bool)
    ensures
        r == ('0' <= c && c <= '9'),
{
    '0' <= c && c <= '9'
}

/// The token as a value.
spec fn lex_of(t: Token) -> Lexeme {
    match t {
        Token::OpTok(op) => Lexeme::Op(op),
        Token::Part(f) => Lexeme::Part(f@),
    }
}

/// The tokens as values.
spec fn lexes(ts: Seq<Token>) -> Seq<Lexeme> {
    ts.map_values(|t: Token| lex_of(t))
}

proof fn lemma_lexes_push(ts: Seq<Token>, t: Token)
    ensures
        lexes(ts.push(t)) == lexes(ts).push(lex_of(t)),
{
    assert(lexes(ts.push(t)) =~= lexes(ts).push(lex_of(t)));
}

/// Replacing the tokens `ts[i..i + k]` by `t`.
proof fn lemma_lexes_splice(ts: Seq<Token>, i: int, k: int, t: Token)
    requires
        0 <= i,
        0 <= k,
        i + k <= ts.len(),
    ensures
        lexes(ts.take(i) + seq![t] + ts.skip(i + k)) == lexes(ts).take(i) + seq![lex_of(t)] + lexes(ts).skip(i + k),
{
    assert(lexes(ts.take(i) + seq![t] + ts.skip(i + k)) =~= lexes(ts).take(i) + seq![lex_of(t)] + lexes(ts).skip(i + k));
}

/// The parser's result as values.
spec fn result_view(r: Result<Vec<u8>, Vec<char>>) -> Result<Seq<u8>, Seq<char>> {
    match r {
        Ok(f) => Ok(f@),
        Err(m) => Err(m@),
    }
}

/// Whether the operator symbol `face` starts at `chars[pos]`, within `hi`.
fn face_at(chars: &Vec<char>, pos: usize, hi: usize, op: Op) -> (r: bool)
    requires
        pos < hi <= chars.len(),
    ensures
        r == face_matches(chars@, pos as int, hi as int, op),
        r ==> pos + op.len() <= hi,
{
    match op {
        Op::LSL => pos + 1 < hi && chars[pos] == '<' && chars[pos + 1] == '<',
        Op::LSR => pos + 1 < hi && chars[pos] == '>' && chars[pos + 1] == '>',
        Op::NEG | Op::SUB => chars[pos] == '-',
        Op::NOT => chars[pos] == '!',
        Op::MUL => chars[pos] == '*',
        Op::DIV => chars[pos] == '/',
        Op::MOD => chars[pos] == '%',
        Op::ADD => chars[pos] == '+',
        Op::AND => chars[pos] == '&',
        Op::XOR => chars[pos] == '^',
        Op::ORR => chars[pos] == '|',
    }
}

/// The operator token that the assembling step handles next: the one of
/// highest precedence, the last of several unary ones, the first of several
/// binary ones.
fn select_op(tokens: &Vec<Token>) -> (r: Option<(usize, Op)>)
    ensures
        r matches Some((i, op)) ==> i < tokens@.len() && tokens@[i as int] == Token::OpTok(op),
        r is None ==> forall|i: int| 0 <= i < tokens@.len() ==> !is_op_token(#[trigger] tokens@[i]),
        select(lexes(tokens@)) == (match r {
            Some((i, op)) => Some((i as int, op)),
            None => None,
        }),
{
    let ghost ls = lexes(tokens@);
    let mut best: Option<(usize, Op)> = None;
    let mut j: usize = 0;
    while j < tokens.len()
        invariant
            0 <= j <= tokens@.len(),
            ls == lexes(tokens@),
            best matches Some((i, op)) ==> i < tokens@.len() && tokens@[i as int] == Token::OpTok(op),
            best is None ==> forall|i: int| 0 <= i < j ==> !is_op_token(#[trigger] tokens@[i]),
            select(ls) == select_from(ls, j as int, match best {
                Some((i, op)) => Some((i as int, op)),
                None => None,
            }),
        decreases tokens@.len() - j,
    {
        assert(ls[j as int] == lex_of(tokens@[j as int]));
        match &tokens[j] {
            Token::OpTok(op) => {
                let op = *op;
                match best {
                    None => {
                        best = Some((j, op));
                    },
                    Some((_, b)) => {
                        if op.prec() > b.prec() || (op.prec() == b.prec() && op.arity() == 1) {
                            best = Some((j, op));
                        }
                    },
                }
            },
            Token::Part(_) => {},
        }
        j = j + 1;
    }
    best
}

/// Parse `chars[lo..hi]` into the bytes of an expression.
fn parse_range(chars: &Vec<char>, lo: usize, hi: usize) -> (r: Result<Vec<u8>, Vec<char>>)
    requires
        lo <= hi <= chars.len(),
    ensures
        r matches Ok(f) ==> is_tree(f@),
        r matches Err(m) ==> is_parse_error(m@),
        result_view(r) == parse_chars(chars@, lo as int, hi as int),
    decreases hi - lo,
{
    let mut tokens: Vec<Token> = Vec::new();
    let mut pos = lo;
    let ops = all_ops();
    proof {
        assert(lexes(tokens@) =~= Seq::<Lexeme>::empty());
    }
    while pos < hi
        invariant
            lo <= pos <= hi <= chars.len(),
            tokens_ok(tokens@),
            ops@ == all_ops_seq(),
            lex_from(chars@, lo as int, hi as int, Seq::empty()) == lex_from(
                chars@,
                pos as int,
                hi as int,
                lexes(tokens@),
            ),
        decreases hi - pos,
    {
        let c = chars[pos];
        let ghost acc = lexes(tokens@);

        // A variable.
        if is_letter(c) {
            let v = ((c as u32) - 97) as u8;
            let code: u8 = 242 - v;
            let field = vec![code];
            proof {
                assert(field@.len() == 1);
                assert(tree_len(field@, 1) == Some(1int));
                assert(field@ =~= seq![(242 - ((c as u32) - 97)) as u8]);
                lemma_lexes_push(tokens@, Token::Part(field));
            }
            tokens.push(Token::Part(field));
            pos = pos + 1;
            continue;
        }

        // A number.
        let mut number_len: usize = 0;
        let mut value: u128 = 0;
        while pos + number_len < hi && is_digit(chars[pos + number_len])
            invariant
                lo <= pos < hi <= chars.len(),
                pos + number_len <= hi,
                value <= 1559,
                value == digits_value(chars@, pos as int, number_len as nat),
                digit_run(chars@, pos as int, hi as int) == number_len + digit_run(
                    chars@,
                    pos + number_len,
                    hi as int,
                ),
            decreases hi - pos - number_len,
        {
            if value <= 155 {
                let d = ((chars[pos + number_len] as u32) - 48) as u128;
                value = value * 10 + d;
            }
            number_len = number_len + 1;
        }
        proof {
            assert(digit_run(chars@, pos + number_len, hi as int) == 0);
            assert(number_len == digit_run(chars@, pos as int, hi as int));
        }
        if number_len > 0 {
            if value > 155 {
                return Err(error_from("constants above 155 are not supported in Expressions"));
            }
            let code: u8 = value as u8;
            let field = vec![code];
            proof {
                assert(tree_len(field@, 1) == Some(1int));
                assert(field@ =~= seq![value as u8]);
                lemma_lexes_push(tokens@, Token::Part(field));
            }
            tokens.push(Token::Part(field));
            pos = pos + number_len;
            continue;
        }

        // An operator.
        let last_is_part = tokens.len() > 0 && match &tokens[tokens.len() - 1] {
            Token::Part(_) => true,
            Token::OpTok(_) => false,
        };
        proof {
            if tokens@.len() > 0 {
                assert(acc.last() == lex_of(tokens@.last()));
            }
            assert(last_is_part == (acc.len() > 0 && acc.last() is Part));
        }
        let mut k: usize = 0;
        let mut found: Option<Op> = None;
        while k < ops.len()
            invariant_except_break
                found is None,
                find_op(chars@, pos as int, hi as int, last_is_part, 0) == find_op(
                    chars@,
                    pos as int,
                    hi as int,
                    last_is_part,
                    k as int,
                ),
            invariant
                0 <= k <= ops@.len(),
                ops@ == all_ops_seq(),
                pos < hi <= chars.len(),
            ensures
                found matches Some(op) ==> pos + op.len() <= hi,
                found matches Some(op) ==> find_op(chars@, pos as int, hi as int, last_is_part, 0) == Some(op),
                found is None ==> find_op(chars@, pos as int, hi as int, last_is_part, 0) is None,
            decreases ops@.len() - k,
        {
            let op = ops[k];
            if !(last_is_part && op.arity() == 1) && face_at(chars, pos, hi, op) {
                found = Some(op);
                assert(find_op(chars@, pos as int, hi as int, last_is_part, k as int) == Some(op));
                break;
            }
            k = k + 1;
        }
        if let Some(op) = found {
            proof {
                lemma_lexes_push(tokens@, Token::OpTok(op));
            }
            tokens.push(Token::OpTok(op));
            pos = pos + op.len();
            continue;
        }

        // A parenthesized subexpression.
        if c == '(' {
            let mut depth: usize = 1;
            let mut finger = pos + 1;
            while finger < hi
                invariant_except_break
                    1 <= depth <= finger - pos,
                    close_paren(chars@, pos + 1, hi as int, 1) == close_paren(
                        chars@,
                        finger as int,
                        hi as int,
                        depth as int,
                    ),
                invariant
                    pos < finger <= hi <= chars.len(),
                ensures
                    finger <= hi,
                    depth == 0 <==> finger < hi,
                    depth == 0 ==> close_paren(chars@, pos + 1, hi as int, 1) == Some(finger as int),
                    depth != 0 ==> close_paren(chars@, pos + 1, hi as int, 1) is None,
                decreases hi - finger,
            {
                let d = chars[finger];
                if d == '(' {
                    depth = depth + 1;
                } else if d == ')' {
                    depth = depth - 1;
                }
                if depth == 0 {
                    break;
                }
                finger = finger + 1;
            }
            if depth != 0 {
                proof {
                    assert(lex_from(chars@, pos as int, hi as int, acc) == Err::<Seq<Lexeme>, Seq<char>>(
                        "mismatched parentheses"@,
                    ));
                }
                return Err(error_from("mismatched parentheses"));
            }
            match parse_range(chars, pos + 1, finger) {
                Err(err) => {
                    proof {
                        assert(lex_from(chars@, pos as int, hi as int, acc) == Err::<Seq<Lexeme>, Seq<char>>(
                            err@,
                        ));
                    }
                    return Err(err);
                },
                Ok(field) => {
                    proof {
                        lemma_lexes_push(tokens@, Token::Part(field));
                    }
                    tokens.push(Token::Part(field));
                    pos = finger + 1;
                    continue;
                },
            }
        }

        // Nothing else can start here.
        let mut msg = error_from("can't parse a valid token from the start of this string: ");
        let ghost prefix = msg@;
        let mut i = pos;
        while i < hi
            invariant
                pos <= i <= hi <= chars.len(),
                msg@ == prefix + chars@.subrange(pos as int, i as int),
            decreases hi - i,
        {
            msg.push(chars[i]);
            assert(chars@.subrange(pos as int, i + 1) =~= chars@.subrange(pos as int, i as int).push(chars@[i as int]));
            i = i + 1;
        }
        return Err(msg);
    }

    // Assemble the tokens into one expression.
    loop
        invariant
            tokens_ok(tokens@),
            parse_chars(chars@, lo as int, hi as int) == assemble(lexes(tokens@)),
        ensures
            tokens_ok(tokens@),
            parse_chars(chars@, lo as int, hi as int) == assemble(lexes(tokens@)),
            select(lexes(tokens@)) is None,
        decreases tokens@.len(),
    {
        let ghost ls = lexes(tokens@);
        let ghost before = tokens@;
        let Some((index, op)) = select_op(&tokens) else { break };
        if index == tokens.len() - 1 {
            return Err(error_from("invalid syntax"));
        }
        if op.arity() == 1 {
            let _ = tokens.remove(index);
            let t = tokens.remove(index);
            match t {
                Token::Part(mut field) => {
                    proof {
                        lemma_tree_unary(field@, op);
                    }
                    let ghost f0 = field@;
                    field.push(op.code());
                    tokens.insert(index, Token::Part(field));
                    proof {
                        assert(tokens@ =~= before.take(index as int) + seq![Token::Part(field)] + before.skip(index + 2));
                        lemma_lexes_splice(before, index as int, 2, Token::Part(field));
                        assert(ls[index + 1] == lex_of(before[index + 1]));
                    }
                },
                Token::OpTok(_) => {
                    proof {
                        assert(ls[index + 1] == lex_of(before[index + 1]));
                    }
                    return Err(error_from("invalid syntax"));
                },
            }
        } else {
            if index == 0 {
                return Err(error_from("invalid syntax"));
            }
            let _ = tokens.remove(index);
            let left = tokens.remove(index - 1);
            let right = tokens.remove(index - 1);
            proof {
                assert(ls[index - 1] == lex_of(before[index - 1]));
                assert(ls[index + 1] == lex_of(before[index + 1]));
            }
            match (left, right) {
                (Token::Part(mut field_left), Token::Part(mut field_right)) => {
                    proof {
                        lemma_tree_binary(field_left@, field_right@, op);
                    }
                    field_left.append(&mut field_right);
                    field_left.push(op.code());
                    tokens.insert(index - 1, Token::Part(field_left));
                    proof {
                        assert(tokens@ =~= before.take(index - 1) + seq![Token::Part(field_left)] + before.skip(index + 2));
                        lemma_lexes_splice(before, index - 1, 3, Token::Part(field_left));
                    }
                },
                _ => {
                    return Err(error_from("invalid syntax"));
                },
            }
        }
    }

    if tokens.len() == 1 {
        proof {
            assert(lexes(tokens@)[0] == lex_of(tokens@[0]));
        }
        match tokens.remove(0) {
            Token::Part(field) => {
                return Ok(field);
            },
            Token::OpTok(_) => {},
        }
    }
    Err(error_from("invalid syntax"))
}

impl<N: Number, const C: usize> Expression<N, C> {
    /// Parse an expression from a string.
    ///
    /// In the string, the variable `a` is taken to mean the expression's
    /// first input variable, `b` the second, and so on. Constants above 155
    /// are not supported. The error is a sentence that says what went wrong.
    pub fn parse(s: &str) -> (r: Result<Self, String>)
        ensures
            parse_chars(s@, 0, s@.len() as int) == (match r {
                Ok(e) => Ok(e@),
                Err(m) => Err(m@),
            }),
            r matches Ok(e) ==> is_tree(e@),
            r matches Err(m) ==> is_parse_error(m@),
    {
        let chars = chars_of(s);
        match parse_range(&chars, 0, chars.len()) {
            Ok(field) => Ok(Expression::from_field(field)),
            Err(m) => Err(string_from_chars(&m)),
        }
    }
}

impl<N: Number, const C: usize> core::str::FromStr for Expression<N, C> {
    type Err = String;

    fn from_str(s: &str) -> (r: Result<Self, String>)
        ensures
            parse_chars(s@, 0, s@.len() as int) == (match r {
                Ok(e) => Ok(e@),
                Err(m) => Err(m@),
            }),
            r matches Ok(e) ==> is_tree(e@),
            r matches Err(m) ==> is_parse_error(m@),
    {
        Self::parse(s)
    }
}

/// Every byte of `codes[lo..hi]` is a pivot, and every variable among them
/// is one of the first `vars`.
pub open spec fn pivots_within(codes: Seq<u8>, lo: int, hi: int, vars: nat) -> bool {
    forall|i: int|
        lo <= i < hi ==> is_valid_code(#[trigger] codes[i]) && (Pivot::decode(codes[i]) matches Pivot::VarPivot(v) ==> v < vars)
}

/// A tree renders as one subexpression that spans exactly the tree.
pub proof fn lemma_tree_renders(codes: Seq<u8>, end: int, vars: nat)
    requires
        tree_len(codes, end) is Some,
        pivots_within(codes, end - tree_len(codes, end).unwrap(), end, vars),
    ensures
        render(codes, end) is Some,
        render(codes, end).unwrap().2 == tree_len(codes, end).unwrap(),
    decreases end,
{
    lemma_tree_len_bounds(codes, end);
    let k = tree_len(codes, end).unwrap();
    let c = codes[end - 1];
    assert(is_valid_code(codes[end - 1]));
    if 243 <= c && c <= 254 {
        let op = op_of_code(c);
        assert(Pivot::decode(c) == Pivot::OpPivot(op));
        lemma_tree_len_bounds(codes, end - 1);
        let r = tree_len(codes, end - 1).unwrap();
        if op.arity() == 1 {
            assert(k == r + 1);
            lemma_tree_renders(codes, end - 1, vars);
        } else {
            lemma_tree_len_bounds(codes, end - 1 - r);
            let l = tree_len(codes, end - 1 - r).unwrap();
            assert(k == 1 + l + r);
            lemma_tree_renders(codes, end - 1, vars);
            lemma_tree_renders(codes, end - 1 - r, vars);
        }
    }
}

/// A tree runs safely on any stack that leaves room for its leaves, and
/// leaves one value.
proof fn lemma_tree_runs(codes: Seq<u8>, end: int, base: int, vars: nat)
    requires
        tree_len(codes, end) is Some,
        pivots_within(codes, end - tree_len(codes, end).unwrap(), end, vars),
        0 <= base,
        base + tree_len(codes, end).unwrap() <= 99,
    ensures
        runs_ok_from(codes.subrange(end - tree_len(codes, end).unwrap(), end), base, vars),
        height_after(codes.subrange(end - tree_len(codes, end).unwrap(), end)) == 1,
    decreases end,
{
    lemma_tree_len_bounds(codes, end);
    let k = tree_len(codes, end).unwrap();
    let c = codes[end - 1];
    assert(is_valid_code(codes[end - 1]));
    if 243 <= c && c <= 254 {
        let op = op_of_code(c);
        assert(Pivot::decode(c) == Pivot::OpPivot(op));
        lemma_tree_len_bounds(codes, end - 1);
        let r = tree_len(codes, end - 1).unwrap();
        let rs = codes.subrange(end - 1 - r, end - 1);
        if op.arity() == 1 {
            assert(k == r + 1);
            lemma_tree_runs(codes, end - 1, base, vars);
            assert(step_ok(base + height_after(rs), c, vars));
            lemma_single_run(c, base + height_after(rs), vars);
            lemma_runs_concat(rs, seq![c], base, vars);
            lemma_height_concat(rs, seq![c]);
            assert(codes.subrange(end - k, end) =~= rs + seq![c]);
        } else {
            lemma_tree_len_bounds(codes, end - 1 - r);
            let l = tree_len(codes, end - 1 - r).unwrap();
            let ls = codes.subrange(end - 1 - r - l, end - 1 - r);
            assert(k == 1 + l + r);
            lemma_tree_runs(codes, end - 1 - r, base, vars);
            lemma_tree_runs(codes, end - 1, base + 1, vars);
            lemma_runs_concat(ls, rs, base, vars);
            lemma_height_concat(ls, rs);
            assert(step_ok(base + height_after(ls + rs), c, vars));
            lemma_single_run(c, base + height_after(ls + rs), vars);
            lemma_runs_concat(ls + rs, seq![c], base, vars);
            lemma_height_concat(ls + rs, seq![c]);
            assert(codes.subrange(end - k, end) =~= ls + rs + seq![c]);
        }
    } else {
        assert(step_ok(base, c, vars));
        lemma_single_run(c, base, vars);
        assert(codes.subrange(end - k, end) =~= seq![c]);
    }
}

/// A parsed expression whose bytes are all pivots (its variables are among
/// the first 13) renders as a whole: `to_string` accepts it.
pub proof fn lemma_parsed_renders(codes: Seq<u8>)
    requires
        is_tree(codes),
        forall|i: int| 0 <= i < codes.len() ==> is_valid_code(#[trigger] codes[i]),
    ensures
        renderable(codes),
        render(codes, codes.len() as int).unwrap().2 == codes.len(),
{
    let vars = 26nat;
    assert forall|i: int| 0 <= i < codes.len() implies is_valid_code(#[trigger] codes[i]) && (
    Pivot::decode(codes[i]) matches Pivot::VarPivot(v) ==> v < vars) by {
        assert(is_valid_code(codes[i]));
    }
    lemma_tree_renders(codes, codes.len() as int, vars);
}

/// A parsed expression of at most 99 bytes, whose bytes are all pivots
/// and whose variables are among the first `vars`, runs safely with
/// `vars` inputs and leaves one value: `apply` accepts it.
pub proof fn lemma_parsed_runs(codes: Seq<u8>, vars: nat)
    requires
        is_tree(codes),
        codes.len() <= 99,
        pivots_within(codes, 0, codes.len() as int, vars),
    ensures
        runs_ok(codes, vars),
        height_after(codes) == 1,
{
    lemma_tree_runs(codes, codes.len() as int, 0, vars);
    assert(codes.subrange(0, codes.len() as int) =~= codes);
    assert forall|i: int| 0 <= i < codes.len() implies #[trigger] step_ok(
        height_after(codes.take(i)),
        codes[i],
        vars,
    ) by {
        assert(step_ok(0 + height_after(codes.take(i)), codes[i], vars));
    }
}

} // verus!
