//! Small writers that fill the bytes of an atom: a variable or a constant.
use vstd::prelude::*;

use crate::pivot::{Op, Pivot};
use crate::text::pow10;

verus! {

/// Where a subexpression stands relative to its parent operator.
#[derive(Copy, Clone, PartialEq, Eq, Debug, PartialOrd, Ord)]
#[allow(non_camel_case_types)]
pub enum Location {
    TOP,
    CHILD_OF_OR,
    CHILD_OF_XOR,
    CHILD_OF_AND,
    LEFT_CHILD_OF_SHIFT,
    RIGHT_CHILD_OF_SHIFT,
    CHILD_OF_ADD,
    LEFT_CHILD_OF_MUL,
    RIGHT_CHILD_OF_MUL,
    CHILD_OF_NEG,
}

/// What a writer knows of the place its expression will stand in.
#[derive(Debug, Clone)]
pub struct WriterContext {
    pub location: Location,
    pub const_allowed: bool,
}

/// The kinds of top-level operator by which a search splits its work.
#[derive(Debug, Copy, Clone, PartialEq, Eq, Structural)]
pub enum WriterType {
    ConstVar,
    Neg,
    Mul,
    Add,
    Shift,
    And,
    Xor,
    Or,
}

impl WriterType {
    /// Every writer type, atoms first.
    pub fn all() -> (r: Vec<WriterType>)
        ensures
            r@ == seq![
                WriterType::ConstVar,
                WriterType::Neg,
                WriterType::Mul,
                WriterType::Add,
                WriterType::Shift,
                WriterType::And,
                WriterType::Xor,
                WriterType::Or,
            ],
    {
        let r = vec![
            WriterType::ConstVar,
            WriterType::Neg,
            WriterType::Mul,
            WriterType::Add,
            WriterType::Shift,
            WriterType::And,
            WriterType::Xor,
            WriterType::Or,
        ];
        assert(r@ =~= seq![
            WriterType::ConstVar,
            WriterType::Neg,
            WriterType::Mul,
            WriterType::Add,
            WriterType::Shift,
            WriterType::And,
            WriterType::Xor,
            WriterType::Or,
        ]);
        r
    }
}

/// Writes each variable of an expression with `C` inputs, `a` first.
#[derive(Debug, Clone)]
pub struct VarWriter<const C: usize> {
    next_write: u8,
}

impl<const C: usize> VarWriter<C> {
    /// The number of the variable the next write writes.
    pub closed spec fn next_var(&self) -> u8 {
        self.next_write
    }

    /// A writer that starts at variable `a`.
    pub fn new(_length: usize, _constant_cap: u128) -> (r: Self)
        ensures
            r.next_var() == 0,
    {
        Self { next_write: 0 }
    }

    /// Write the next variable into `dest[0]`; `false` once every variable
    /// was written.
    pub fn write(&mut self, dest: &mut [u8]) -> (r: bool)
        requires
            C <= 243,
            old(self).next_var() <= C,
            old(dest)@.len() >= 1,
        ensures
            r == (old(self).next_var() < C),
            r ==> final(dest)@ == old(dest)@.update(0, Pivot::VarPivot(old(self).next_var()).encode()),
            r ==> final(self).next_var() == old(self).next_var() + 1,
            !r ==> final(dest)@ == old(dest)@ && final(self).next_var() == old(self).next_var(),
    {
        if self.next_write == C as u8 {
            return false;
        }
        dest[0] = Pivot::VarPivot(self.next_write).encode();
        self.next_write = self.next_write + 1;
        true
    }
}

/// Writes the atoms of a small search: `1`, `2` and `a` in one byte, or
/// `10`, `20` and `30` in two.
pub struct AtomWriter {
    length: usize,
    next_write: u8,
}

impl AtomWriter {
    /// The length the writer writes.
    pub closed spec fn len_spec(&self) -> usize {
        self.length
    }

    /// The value the next write writes (4 and 40 mean that it is done).
    pub closed spec fn next_value(&self) -> u8 {
        self.next_write
    }

    /// The states a writer passes through.
    pub open spec fn wf(&self) -> bool {
        let n = self.next_value();
        if self.len_spec() == 1 {
            1 <= n <= 4
        } else {
            n == 10 || n == 20 || n == 30 || n == 40
        }
    }

    /// A writer for atoms of `length` bytes.
    pub fn new(length: usize) -> (r: Self)
        ensures
            r.len_spec() == length,
            r.next_value() == if length == 1 { 1u8 } else { 10u8 },
            r.wf(),
    {
        Self { length, next_write: if length == 1 { 1 } else { 10 } }
    }

    /// Write the next atom; `false` once all were written.
    pub fn write(&mut self, dest: &mut [u8]) -> (r: bool)
        requires
            old(self).wf(),
            old(dest)@.len() >= 2 || (old(dest)@.len() >= 1 && old(self).len_spec() == 1),
        ensures
            final(self).wf(),
            final(self).len_spec() == old(self).len_spec(),
            r == (old(self).next_value() != 4 && old(self).next_value() != 40),
            !r ==> final(dest)@ == old(dest)@ && *final(self) == *old(self),
            r && old(self).next_value() < 3 ==> final(dest)@ == old(dest)@.update(0, old(self).next_value())
                && final(self).next_value() == old(self).next_value() + 1,
            r && old(self).next_value() == 3 ==> final(dest)@ == old(dest)@.update(0, 242u8)
                && final(self).next_value() == 4,
            r && old(self).next_value() >= 10 ==> final(dest)@ == old(dest)@.update(0, old(self).next_value()).update(1, 255u8)
                && final(self).next_value() == old(self).next_value() + 10,
    {
        if self.next_write == 4 || self.next_write == 40 {
            return false;
        }
        if self.next_write <= 2 {
            dest[0] = Pivot::ConstPivot(self.next_write).encode();
            self.next_write = self.next_write + 1;
        } else if self.next_write >= 10 {
            dest[0] = Pivot::ConstPivot(self.next_write).encode();
            dest[1] = Pivot::Nop.encode();
            self.next_write = self.next_write + 10;
        } else {
            dest[0] = Pivot::VarPivot(0).encode();
            self.next_write = self.next_write + 1;
        }
        true
    }
}

/// The bytes of the constant `v` written in `len` bytes: the constant's byte,
/// after it a `!` when `negated`, and no-ops in front.
pub open spec fn const_bytes(len: nat, v: u8, negated: bool) -> Seq<u8> {
    Seq::new(
        len,
        |i: int|
            if negated && i == len - 1 {
                Op::NOT.code()
            } else if (negated && i == len - 2) || (!negated && i == len - 1) {
                v
            } else {
                255u8
            },
    )
}

/// Writes every constant below a cap that can be written in a given number
/// of characters: first those of one digit fewer behind a `!` (`!10` to
/// `!99` in three characters), then those of exactly that many digits.
#[derive(Debug, Clone)]
pub struct ConstWriter {
    length: usize,
    next_write: u128,
    remove_neg_at: u128,
    stop_at: u128,
}

/// `10` to the power `k`, as a `u128`.
fn power_of_ten(k: usize) -> (r: u128)
    requires
        k <= 38,
    ensures
        r == pow10(k as nat),
{
    let mut r: u128 = 1;
    let mut i: usize = 0;
    proof {
        lemma_pow10_mono(0, 38);
    }
    while i < k
        invariant
            0 <= i <= k <= 38,
            r == pow10(i as nat),
            pow10(i as nat) <= pow10(38),
        decreases k - i,
    {
        proof {
            lemma_pow10_mono(i as nat + 1, 38);
            reveal_with_fuel(pow10, 39);
        }
        r = r * 10;
        i = i + 1;
    }
    r
}

proof fn lemma_pow10_mono(a: nat, b: nat)
    requires
        a <= b,
    ensures
        pow10(a) <= pow10(b),
    decreases b,
{
    if a < b {
        lemma_pow10_mono(a, (b - 1) as nat);
    }
}

impl ConstWriter {
    /// The length the writer writes.
    pub closed spec fn len_spec(&self) -> usize {
        self.length
    }

    /// The constant the next write writes.
    pub closed spec fn next_value(&self) -> u128 {
        self.next_write
    }

    /// The constants below this one are written behind a `!`.
    pub closed spec fn neg_bound(&self) -> u128 {
        self.remove_neg_at
    }

    /// The writer is done once it reaches this constant.
    pub closed spec fn stop_value(&self) -> u128 {
        self.stop_at
    }

    /// A writer for constants of `length` characters below `constant_cap`.
    /// Constants are stored in one byte, so the cap is at most 156.
    pub fn new(length: usize, constant_cap: u128) -> (r: Self)
        requires
            1 <= length <= 39,
            constant_cap <= 156,
        ensures
            r.len_spec() == length,
            r.next_value() == if length <= 2 { 0 } else { pow10((length - 2) as nat) },
            r.neg_bound() == if length == 1 { 0 } else { pow10((length - 1) as nat) },
            r.stop_value() == if length < 39 && pow10(length as nat) < constant_cap {
                pow10(length as nat)
            } else {
                constant_cap as nat
            },
            r.stop_value() <= 156,
            length >= 4 ==> r.next_value() >= 100,
    {
        let next_write = if length <= 2 { 0 } else { power_of_ten(length - 2) };
        let remove_neg_at = if length == 1 { 0 } else { power_of_ten(length - 1) };
        proof {
            if length >= 4 {
                lemma_pow10_mono(2, (length - 2) as nat);
                reveal_with_fuel(pow10, 3);
            }
        }
        let stop_at = if length == 39 {
            constant_cap
        } else {
            let p = power_of_ten(length);
            if p < constant_cap { p } else { constant_cap }
        };
        Self { length, next_write, remove_neg_at, stop_at }
    }

    /// Write the next constant into `dest[..length]`; `false` once all were
    /// written.
    pub fn write(&mut self, dest: &mut [u8]) -> (r: bool)
        requires
            old(dest)@.len() >= old(self).len_spec() >= 1,
            old(self).stop_value() <= 156,
            old(self).len_spec() == 1 ==> old(self).neg_bound() == 0,
        ensures
            final(self).len_spec() == old(self).len_spec(),
            final(self).neg_bound() == old(self).neg_bound(),
            final(self).stop_value() == old(self).stop_value(),
            r == (old(self).next_value() < old(self).stop_value()),
            !r ==> final(dest)@ == old(dest)@ && *final(self) == *old(self),
            r ==> final(self).next_value() == old(self).next_value() + 1,
            r ==> final(dest)@ == const_bytes(
                old(self).len_spec() as nat,
                old(self).next_value() as u8,
                old(self).next_value() < old(self).neg_bound(),
            ) + old(dest)@.skip(old(self).len_spec() as int),
    {
        if self.next_write >= self.stop_at {
            return false;
        }
        let ghost orig = dest@;
        let len = self.length;
        let mut i: usize = 0;
        while i < len
            invariant
                0 <= i <= len <= dest@.len(),
                dest@.len() == orig.len(),
                forall|j: int| 0 <= j < i ==> #[trigger] dest@[j] == 255u8,
                forall|j: int| i <= j < dest@.len() ==> #[trigger] dest@[j] == orig[j],
            decreases len - i,
        {
            dest[i] = Pivot::Nop.encode();
            i = i + 1;
        }
        let negated = self.next_write < self.remove_neg_at;
        let v = self.next_write as u8;
        if negated {
            dest[len - 1] = Op::NOT.code();
            dest[len - 2] = Pivot::ConstPivot(v).encode();
        } else {
            dest[len - 1] = Pivot::ConstPivot(v).encode();
        }
        proof {
            let expected = const_bytes(len as nat, v, negated) + orig.skip(len as int);
            assert(dest@ =~= expected);
        }
        self.next_write = self.next_write + 1;
        true
    }
}

/// `ws` are the states of a variable writer before each of the successful
/// writes whose destinations afterwards are `ds`, and after the last: each
/// step is what `write` does when it returns `true`.
pub open spec fn is_var_run<const C: usize>(ws: Seq<VarWriter<C>>, ds: Seq<Seq<u8>>) -> bool {
    &&& ws.len() == ds.len() + 1
    &&& forall|i: int|
        0 <= i < ds.len() ==> {
            &&& ws[i].next_var() < C
            &&& ws[i + 1].next_var() == ws[i].next_var() + 1
            &&& #[trigger] ds[i][0] == Pivot::VarPivot(ws[i].next_var()).encode()
        }
}

/// A fresh variable writer writes `a`, `b`, … in order, one variable per
/// write, and at most `C` of them.
pub proof fn lemma_var_run<const C: usize>(ws: Seq<VarWriter<C>>, ds: Seq<Seq<u8>>)
    requires
        is_var_run(ws, ds),
        ws[0].next_var() == 0,
    ensures
        ds.len() <= C,
        forall|i: int| 0 <= i < ds.len() ==> #[trigger] ds[i][0] == Pivot::VarPivot(i as u8).encode(),
{
    assert forall|i: int| 0 <= i < ds.len() implies #[trigger] ds[i][0] == Pivot::VarPivot(
        i as u8,
    ).encode() by {
        lemma_var_run_step(ws, ds, i);
        assert(ds[i][0] == Pivot::VarPivot(ws[i].next_var()).encode());
    }
    if ds.len() > 0 {
        let m = ds.len() - 1;
        lemma_var_run_step(ws, ds, m);
        assert(ds[m][0] == Pivot::VarPivot(ws[m].next_var()).encode());
    }
}

/// The `i`-th state of a run from the start is at variable `i`.
proof fn lemma_var_run_step<const C: usize>(ws: Seq<VarWriter<C>>, ds: Seq<Seq<u8>>, i: int)
    requires
        is_var_run(ws, ds),
        ws[0].next_var() == 0,
        0 <= i <= ds.len(),
    ensures
        ws[i].next_var() == i,
        i < ds.len() ==> ws[i].next_var() < C,
    decreases i,
{
    if i < ds.len() {
        assert(ds[i][0] == Pivot::VarPivot(ws[i].next_var()).encode());
    }
    if i > 0 {
        lemma_var_run_step(ws, ds, i - 1);
        assert(ds[i - 1][0] == Pivot::VarPivot(ws[i - 1].next_var()).encode());
    }
}

/// `ws` are the states of a constant writer before each of the successful
/// writes whose destinations afterwards are `ds`, and after the last: each
/// step is what `write` does when it returns `true`.
pub open spec fn is_const_run(ws: Seq<ConstWriter>, ds: Seq<Seq<u8>>) -> bool {
    &&& ws.len() == ds.len() + 1
    &&& forall|i: int|
        0 <= i < ds.len() ==> {
            &&& ws[i + 1].len_spec() == ws[i].len_spec()
            &&& ws[i + 1].neg_bound() == ws[i].neg_bound()
            &&& ws[i + 1].stop_value() == ws[i].stop_value()
            &&& ws[i].next_value() < ws[i].stop_value()
            &&& ws[i + 1].next_value() == ws[i].next_value() + 1
            &&& #[trigger] ds[i].take(ws[i].len_spec() as int) == const_bytes(
                ws[i].len_spec() as nat,
                ws[i].next_value() as u8,
                ws[i].next_value() < ws[i].neg_bound(),
            )
        }
}

/// A constant writer writes its constants one after another in increasing
/// order, each once, from the one it starts at up to its stop value: the
/// `i`-th write writes the start plus `i`, behind a `!` while below the
/// negation bound, and there are no more writes than constants.
pub proof fn lemma_const_run(ws: Seq<ConstWriter>, ds: Seq<Seq<u8>>)
    requires
        is_const_run(ws, ds),
    ensures
        ds.len() > 0 ==> ws[0].next_value() + ds.len() <= ws[0].stop_value(),
        forall|i: int|
            0 <= i < ds.len() ==> #[trigger] ds[i].take(ws[0].len_spec() as int) == const_bytes(
                ws[0].len_spec() as nat,
                (ws[0].next_value() + i) as u8,
                ws[0].next_value() + i < ws[0].neg_bound(),
            ),
{
    assert forall|i: int| 0 <= i < ds.len() implies #[trigger] ds[i].take(
        ws[0].len_spec() as int,
    ) == const_bytes(
        ws[0].len_spec() as nat,
        (ws[0].next_value() + i) as u8,
        ws[0].next_value() + i < ws[0].neg_bound(),
    ) by {
        lemma_const_run_step(ws, ds, i);
        assert(ds[i].take(ws[i].len_spec() as int) == const_bytes(
            ws[i].len_spec() as nat,
            ws[i].next_value() as u8,
            ws[i].next_value() < ws[i].neg_bound(),
        ));
    }
    if ds.len() > 0 {
        let m = ds.len() - 1;
        lemma_const_run_step(ws, ds, m);
        assert(ds[m].take(ws[m].len_spec() as int) == const_bytes(
            ws[m].len_spec() as nat,
            ws[m].next_value() as u8,
            ws[m].next_value() < ws[m].neg_bound(),
        ));
    }
}

/// The `i`-th state of a run is `i` steps past the first.
proof fn lemma_const_run_step(ws: Seq<ConstWriter>, ds: Seq<Seq<u8>>, i: int)
    requires
        is_const_run(ws, ds),
        0 <= i <= ds.len(),
    ensures
        ws[i].next_value() == ws[0].next_value() + i,
        ws[i].len_spec() == ws[0].len_spec(),
        ws[i].neg_bound() == ws[0].neg_bound(),
        ws[i].stop_value() == ws[0].stop_value(),
        i < ds.len() ==> ws[i].next_value() < ws[i].stop_value(),
    decreases i,
{
    if i < ds.len() {
        assert(ds[i].take(ws[i].len_spec() as int) == const_bytes(
            ws[i].len_spec() as nat,
            ws[i].next_value() as u8,
            ws[i].next_value() < ws[i].neg_bound(),
        ));
    }
    if i > 0 {
        lemma_const_run_step(ws, ds, i - 1);
        assert(ds[i - 1].take(ws[i - 1].len_spec() as int) == const_bytes(
            ws[i - 1].len_spec() as nat,
            ws[i - 1].next_value() as u8,
            ws[i - 1].next_value() < ws[i - 1].neg_bound(),
        ));
    }
}

} // verus!
