//! Partitions of a length into the lengths of the components of a sum.
use vstd::prelude::*;

verus! {

/// The sum of the parts.
pub open spec fn sum(s: Seq<usize>) -> int
    decreases s.len(),
{
    if s.len() == 0 {
        0
    } else {
        sum(s.drop_last()) + s.last()
    }
}

/// Every part is at least 2 and no part is larger than the one before it.
pub open spec fn valid_parts(s: Seq<usize>) -> bool {
    &&& forall|i: int| 0 <= i < s.len() ==> #[trigger] s[i] >= 2
    &&& forall|i: int, j: int| 0 <= i <= j < s.len() ==> s[i] >= s[j]
}

/// `a` comes before `b` in reverse lexicographic order: they agree up to
/// position `k`, where `a` holds the smaller part.
pub open spec fn lex_less_at(a: Seq<usize>, b: Seq<usize>, k: int) -> bool {
    &&& 0 <= k < a.len()
    &&& k < b.len()
    &&& a.take(k) == b.take(k)
    &&& a[k] < b[k]
}

/// `a` comes strictly before `b` in reverse lexicographic order.
pub open spec fn precedes(a: Seq<usize>, b: Seq<usize>) -> bool {
    exists|k: int| lex_less_at(a, b, k)
}

/// The part that the refilling step pushes next, with `spare` left to
/// place and no part allowed above `cap`: the largest part that leaves a
/// remainder that parts of at least 2, none above it, can still fill.
pub open spec fn fill_next(spare: int, cap: int) -> int {
    if cap > spare {
        spare
    } else if cap == spare || cap + 2 <= spare {
        cap
    } else {
        cap - 1
    }
}

/// The parts that the refilling step pushes to place `spare`, starting
/// with a part of at most `cap`.
pub open spec fn fill(spare: int, cap: int) -> Seq<usize>
    decreases spare,
{
    if spare <= 0 {
        Seq::empty()
    } else {
        let n = fill_next(spare, cap);
        if n <= 0 || n > spare {
            Seq::empty()
        } else {
            seq![n as usize] + fill(spare - n, n)
        }
    }
}

/// The last partition of its sum in the enumeration order: all parts are 2
/// except possibly a first part of 3.
pub open spec fn is_last_partition(s: Seq<usize>) -> bool {
    &&& forall|i: int| 1 <= i < s.len() ==> #[trigger] s[i] == 2
    &&& s.len() > 0 ==> s[0] == 2 || s[0] == 3
}

/// A partition of a "virtual length" (the length of a sum of terms, counting
/// one operator character in front of every term, even the first) into the
/// virtual lengths of its terms. The partitions are visited in reverse
/// lexicographic order, starting from the single term.
pub struct Partition {
    state: Vec<usize>,
}

impl View for Partition {
    type V = Seq<usize>;

    /// The parts.
    closed spec fn view(&self) -> Seq<usize> {
        self.state@
    }
}

proof fn lemma_sum_push(s: Seq<usize>, x: usize)
    ensures
        sum(s.push(x)) == sum(s) + x,
{
    assert(s.push(x).drop_last() =~= s);
}

proof fn lemma_sum_concat(a: Seq<usize>, b: Seq<usize>)
    ensures
        sum(a + b) == sum(a) + sum(b),
    decreases b.len(),
{
    if b.len() == 0 {
        assert(a + b =~= a);
    } else {
        assert((a + b).drop_last() =~= a + b.drop_last());
        lemma_sum_concat(a, b.drop_last());
    }
}

/// Parts of at least 2 sum to at least twice their number, and to exactly
/// twice their number when they are all 2.
proof fn lemma_sum_of_twos(t: Seq<usize>)
    requires
        forall|i: int| 0 <= i < t.len() ==> #[trigger] t[i] >= 2,
    ensures
        sum(t) >= 2 * t.len(),
        (forall|i: int| 0 <= i < t.len() ==> #[trigger] t[i] == 2) ==> sum(t) == 2 * t.len(),
    decreases t.len(),
{
    if t.len() > 0 {
        lemma_sum_of_twos(t.drop_last());
    }
}

/// The first part and the rest.
proof fn lemma_sum_first(t: Seq<usize>)
    requires
        t.len() > 0,
    ensures
        sum(t) == t[0] + sum(t.skip(1)),
{
    let one = seq![t[0]];
    assert(t =~= one + t.skip(1));
    lemma_sum_concat(one, t.skip(1));
    assert(one.drop_last() =~= Seq::<usize>::empty());
    assert(sum(one.drop_last()) == 0);
    assert(sum(one) == t[0]);
}

/// The refilling step places `spare` in the greatest way: every valid
/// sequence of parts that sums to `spare` and starts with at most `cap` is
/// the fill itself or comes before it.
proof fn lemma_fill_greatest(t: Seq<usize>, spare: int, cap: int)
    requires
        valid_parts(t),
        sum(t) == spare,
        spare <= usize::MAX,
        t.len() > 0 ==> t[0] <= cap,
    ensures
        t == fill(spare, cap) || precedes(t, fill(spare, cap)),
    decreases t.len(),
{
    if t.len() == 0 {
        assert(t =~= fill(spare, cap));
    } else {
        let rest = t.skip(1);
        lemma_sum_first(t);
        assert(forall|i: int| 0 <= i < rest.len() ==> #[trigger] rest[i] == t[i + 1]);
        lemma_sum_of_twos(rest);
        let n = fill_next(spare, cap);
        assert(t[0] <= n) by {
            if cap <= spare && !(cap == spare || cap + 2 <= spare) && t[0] == cap {
                assert(sum(rest) == 1);
            }
        }
        let g = fill(spare - n, n);
        assert(fill(spare, cap) == seq![n as usize] + g);
        let f = fill(spare, cap);
        assert(f[0] == n);
        if t[0] < n {
            assert(t.take(0) =~= f.take(0));
            assert(lex_less_at(t, f, 0));
        } else {
            assert(valid_parts(rest));
            lemma_fill_greatest(rest, spare - n, n);
            if rest == g {
                assert(t =~= f);
            } else {
                let m = choose|m: int| lex_less_at(rest, g, m);
                assert(t.take(m + 1) =~= f.take(m + 1)) by {
                    assert forall|i: int| 0 <= i < m + 1 implies #[trigger] t.take(m + 1)[i] == f.take(m + 1)[i] by {
                        if i > 0 {
                            assert(rest.take(m)[i - 1] == g.take(m)[i - 1]);
                        }
                    }
                }
                assert(lex_less_at(t, f, m + 1));
            }
        }
    }
}

/// After the part at `k`, no part of `orig` can be decreased: a valid
/// partition of the same sum cannot agree with `orig` up to a later
/// position and hold a smaller part there.
proof fn lemma_no_later_decrease(orig: Seq<usize>, k: int, q: Seq<usize>, j: int)
    requires
        valid_parts(orig),
        0 <= k < j,
        forall|i: int| k + 1 < i < orig.len() ==> #[trigger] orig[i] == 2,
        k + 1 < orig.len() ==> orig[k + 1] == 2 || (orig[k + 1] == 3 && sum(orig.skip(k + 1)) % 2 == 1),
        valid_parts(q),
        sum(q) == sum(orig),
    ensures
        !lex_less_at(q, orig, j),
{
    if lex_less_at(q, orig, j) {
        assert(orig[j] == 3);
        assert(j == k + 1);
        assert(q.take(j) =~= orig.take(j));
        assert(q =~= q.take(j) + q.skip(j));
        lemma_sum_concat(q.take(j), q.skip(j));
        assert(orig =~= orig.take(j) + orig.skip(j));
        lemma_sum_concat(orig.take(j), orig.skip(j));
        let t = q.skip(j);
        assert(forall|i: int| 0 <= i < t.len() ==> #[trigger] t[i] == q[j + i]);
        assert forall|i: int| 0 <= i < t.len() implies #[trigger] t[i] == 2 by {
            assert(q[j] >= q[j + i]);
        }
        lemma_sum_of_twos(t);
    }
}

/// A valid partition of the same sum that agrees with `orig` before `k`
/// and holds a smaller part at `k` is the refilled partition or comes
/// before it.
proof fn lemma_same_position(orig: Seq<usize>, k: int, q: Seq<usize>)
    requires
        valid_parts(orig),
        sum(orig) <= usize::MAX,
        0 <= k < orig.len(),
        valid_parts(q),
        sum(q) == sum(orig),
        lex_less_at(q, orig, k),
    ensures
        ({
            let fin = orig.take(k) + fill(sum(orig.skip(k)), orig[k] - 1);
            q == fin || precedes(q, fin)
        }),
{
    let total = sum(orig.skip(k));
    let f = fill(total, orig[k] - 1);
    let fin = orig.take(k) + f;
    assert(orig =~= orig.take(k) + orig.skip(k));
    lemma_sum_concat(orig.take(k), orig.skip(k));
    lemma_sum_nonneg(orig.take(k));
    let t = q.skip(k);
    assert(q =~= q.take(k) + t);
    lemma_sum_concat(q.take(k), t);
    assert(forall|i: int| 0 <= i < t.len() ==> #[trigger] t[i] == q[k + i]);
    assert(valid_parts(t));
    lemma_fill_greatest(t, total, orig[k] - 1);
    if t == f {
        assert(q =~= fin);
    } else {
        let m = choose|m: int| lex_less_at(t, f, m);
        assert(q.take(k + m) =~= fin.take(k + m)) by {
            assert forall|i: int| 0 <= i < k + m implies #[trigger] q.take(k + m)[i] == fin.take(k + m)[i] by {
                if i >= k {
                    assert(t.take(m)[i - k] == f.take(m)[i - k]);
                }
            }
        }
        assert(lex_less_at(q, fin, k + m));
    }
}

/// The partition that `next` builds after `orig` when it decreases the
/// part at `k` (keeping the parts before it and refilling the rest) comes
/// right after `orig`: no valid partition of the same sum lies between
/// them.
proof fn lemma_successor(orig: Seq<usize>, k: int, q: Seq<usize>)
    requires
        valid_parts(orig),
        sum(orig) <= usize::MAX,
        0 <= k < orig.len(),
        forall|j: int| k + 1 < j < orig.len() ==> #[trigger] orig[j] == 2,
        k + 1 < orig.len() ==> orig[k + 1] == 2 || (orig[k + 1] == 3 && sum(orig.skip(k + 1)) % 2 == 1),
        valid_parts(q),
        sum(q) == sum(orig),
        precedes(q, orig),
    ensures
        ({
            let fin = orig.take(k) + fill(sum(orig.skip(k)), orig[k] - 1);
            q == fin || precedes(q, fin)
        }),
{
    let fin = orig.take(k) + fill(sum(orig.skip(k)), orig[k] - 1);
    let j = choose|j: int| lex_less_at(q, orig, j);
    if j < k {
        assert(fin.take(j) =~= orig.take(j));
        assert(lex_less_at(q, fin, j));
    } else if j > k {
        lemma_no_later_decrease(orig, k, q, j);
        assert(false);
    } else {
        lemma_same_position(orig, k, q);
    }
}

proof fn lemma_sum_nonneg(s: Seq<usize>)
    ensures
        sum(s) >= 0,
    decreases s.len(),
{
    if s.len() > 0 {
        lemma_sum_nonneg(s.drop_last());
    }
}

impl Partition {
    /// The partition of `virtual_len` into a single part (none for zero).
    pub fn new(virtual_len: usize) -> (r: Self)
        ensures
            virtual_len > 0 ==> r@ == seq![virtual_len],
            virtual_len == 0 ==> r@ == Seq::<usize>::empty(),
    {
        Self { state: if virtual_len > 0 { vec![virtual_len] } else { vec![] } }
    }

    /// The parts of the current partition.
    pub fn state(&self) -> (r: &[usize])
        ensures
            r@ == self@,
    {
        self.state.as_slice()
    }

    /// Step to the next partition of the same sum into parts of at least 2:
    /// the trailing parts that cannot be made smaller are removed, the last
    /// part that can is decreased, and the removed amount is pushed back
    /// greedily in the largest parts that still allow a valid partition.
    /// Returns `false`, leaving no parts, when the partition was the last.
    pub fn next(&mut self) -> (r: bool)
        requires
            valid_parts(old(self)@),
            sum(old(self)@) <= usize::MAX,
        ensures
            r == !is_last_partition(old(self)@),
            r ==> valid_parts(final(self)@),
            r ==> sum(final(self)@) == sum(old(self)@),
            r ==> precedes(final(self)@, old(self)@),
            r ==> forall|q: Seq<usize>|
                valid_parts(q) && sum(q) == sum(old(self)@) && #[trigger] precedes(q, old(self)@)
                    ==> q == final(self)@ || precedes(q, final(self)@),
            !r ==> final(self)@ == Seq::<usize>::empty(),
    {
        let ghost orig = self.state@;
        let mut spare_bytes: usize = 0;
        proof {
            assert(orig.take(orig.len() as int) =~= orig);
            lemma_sum_nonneg(orig);
        }
        while self.state.len() > 0
            invariant
                self.state@ == orig.take(self.state@.len() as int),
                orig == old(self)@,
                self.state@.len() <= orig.len(),
                valid_parts(orig),
                sum(orig) == sum(self.state@) + spare_bytes,
                forall|i: int| self.state@.len() <= i < orig.len() ==> #[trigger] orig[i] == 2 || (i == self.state@.len() && orig[i] == 3),
                forall|i: int| self.state@.len() < i < orig.len() ==> #[trigger] orig[i] == 2,
                self.state@.len() < orig.len() && orig[self.state@.len() as int] == 3 ==> spare_bytes % 2 == 1,
                self.state@.len() < orig.len() && orig[self.state@.len() as int] == 2 ==> spare_bytes % 2 == 0,
                spare_bytes <= sum(orig),
                sum(orig) <= usize::MAX,
            decreases self.state@.len(),
        {
            let ghost before = self.state@;
            let ghost spare_before = spare_bytes;
            proof {
                assert(forall|i: int| before.len() < i < orig.len() ==> #[trigger] orig[i] == 2);
                assert(before.len() < orig.len() ==> orig[before.len() as int] == 2 || orig[before.len() as int] == 3);
                assert(before.len() < orig.len() && orig[before.len() as int] == 3 ==> spare_before % 2 == 1);
                assert(sum(orig) == sum(before) + spare_before);
            }
            let pop = self.state.pop().unwrap();
            proof {
                assert(before == before.drop_last().push(pop));
                lemma_sum_push(before.drop_last(), pop);
                lemma_sum_nonneg(self.state@);
                assert(self.state@ =~= orig.take(self.state@.len() as int));
                assert(pop == orig[self.state@.len() as int]);
            }
            spare_bytes = spare_bytes + pop;

            if pop == 2 {
                continue;
            }
            if pop == 3 && spare_bytes % 2 != 0 {
                continue;
            }

            // `pop` can be decreased.
            let ghost kept = self.state@;
            let ghost k = kept.len() as int;
            let ghost total = spare_bytes;
            let mut last_push = pop - 1;
            proof {
                assert(pop >= 3);
                if k == 0 && pop == 3 {
                    if orig.len() == 1 {
                        assert(before =~= orig);
                        assert(spare_before == 0);
                    }
                    assert(orig[1] == 3);
                }
                assert(!is_last_partition(orig));
                assert(orig =~= kept + orig.skip(k));
                lemma_sum_concat(kept, orig.skip(k));
                assert(orig =~= before + orig.skip(k + 1));
                lemma_sum_concat(before, orig.skip(k + 1));
                assert(total == sum(orig.skip(k)));
                assert(k + 1 < orig.len() ==> orig[k + 1] == 2 || (orig[k + 1] == 3 && sum(orig.skip(k + 1)) % 2 == 1));
                assert(self.state@ + fill(spare_bytes as int, last_push as int) =~= kept + fill(total as int, pop - 1));
            }
            while spare_bytes > 0
                invariant
                    kept.len() == k,
                    orig == old(self)@,
                    k < orig.len(),
                    kept == orig.take(k),
                    pop == orig[k],
                    valid_parts(orig),
                    self.state@.len() >= k,
                    self.state@.take(k) == kept,
                    sum(self.state@) + spare_bytes == sum(kept) + total,
                    sum(orig) == sum(kept) + total,
                    2 <= last_push < pop,
                    self.state@.len() > k ==> self.state@[k] < pop,
                    self.state@.len() > k ==> last_push == self.state@.last(),
                    forall|i: int| k <= i < self.state@.len() ==> #[trigger] self.state@[i] >= 2,
                    forall|i: int, j: int| k <= i <= j < self.state@.len() ==> self.state@[i] >= self.state@[j],
                    !is_last_partition(orig),
                    spare_bytes != 1,
                    last_push == 2 ==> spare_bytes % 2 == 0,
                    self.state@ + fill(spare_bytes as int, last_push as int) == kept + fill(total as int, pop - 1),
                decreases spare_bytes,
            {
                let next_push = if last_push > spare_bytes {
                    spare_bytes
                } else if last_push == spare_bytes || last_push <= spare_bytes - 2 {
                    last_push
                } else {
                    last_push - 1
                };
                let ghost prev = self.state@;
                proof {
                    assert(next_push == fill_next(spare_bytes as int, last_push as int));
                    assert(fill(spare_bytes as int, last_push as int) == seq![next_push] + fill(
                        spare_bytes - next_push,
                        next_push as int,
                    ));
                }
                self.state.push(next_push);
                proof {
                    assert(self.state@ + fill(spare_bytes - next_push, next_push as int) =~= prev + (seq![
                        next_push,
                    ] + fill(spare_bytes - next_push, next_push as int)));
                    lemma_sum_push(prev, next_push);
                    assert(self.state@.take(k) =~= prev.take(k));
                }
                spare_bytes = spare_bytes - next_push;
                last_push = next_push;
            }
            proof {
                let s = self.state@;
                assert(s =~= kept + fill(total as int, pop - 1));
                assert forall|q: Seq<usize>|
                    valid_parts(q) && sum(q) == sum(orig) && #[trigger] precedes(q, orig) implies q == s
                        || precedes(q, s) by {
                    lemma_successor(orig, k, q);
                }
                assert(s.len() > k) by {
                    if s.len() == k {
                        assert(s =~= kept);
                    }
                }
                assert(lex_less_at(s, orig, k)) by {
                    assert(s.take(k) == orig.take(k));
                }
                assert forall|i: int, j: int| 0 <= i <= j < s.len() implies s[i] >= s[j] by {
                    if i < k {
                        assert(s[i] == kept[i]);
                        assert(kept[i] == orig[i]);
                        if j < k {
                            assert(s[j] == kept[j]);
                            assert(kept[j] == orig[j]);
                        } else {
                            assert(orig[i] >= orig[k]);
                        }
                    }
                }
                assert forall|i: int| 0 <= i < s.len() implies #[trigger] s[i] >= 2 by {
                    if i < k {
                        assert(s[i] == kept[i]);
                        assert(kept[i] == orig[i]);
                    }
                }
            }
            return true;
        }
        proof {
            assert(is_last_partition(orig)) by {
                assert forall|i: int| 1 <= i < orig.len() implies #[trigger] orig[i] == 2 by {
                }
            }
        }
        false
    }
}

/// Coming before is transitive.
proof fn lemma_precedes_trans(a: Seq<usize>, b: Seq<usize>, c: Seq<usize>)
    requires
        precedes(a, b),
        precedes(b, c),
    ensures
        precedes(a, c),
{
    let k1 = choose|k: int| lex_less_at(a, b, k);
    let k2 = choose|k: int| lex_less_at(b, c, k);
    let k = if k1 < k2 { k1 } else { k2 };
    assert forall|i: int| 0 <= i < k implies a[i] == c[i] by {
        assert(a.take(k1)[i] == b.take(k1)[i]);
        assert(b.take(k2)[i] == c.take(k2)[i]);
    }
    if k1 < k2 {
        assert(b.take(k2)[k1] == c.take(k2)[k1]);
    } else if k2 < k1 {
        assert(a.take(k1)[k2] == b.take(k1)[k2]);
    }
    assert(a.take(k) =~= c.take(k));
    assert(lex_less_at(a, c, k));
}

/// `ps` are the partitions that successive calls of `next` step through,
/// each one from the one before.
pub open spec fn is_partition_run(ps: Seq<Seq<usize>>) -> bool {
    forall|i: int| 0 <= i < ps.len() - 1 ==> #[trigger] precedes(ps[i + 1], ps[i])
}

/// Stepping through partitions never comes back: every partition of a run
/// comes before all earlier ones, so no partition occurs twice.
pub proof fn lemma_partition_run(ps: Seq<Seq<usize>>)
    requires
        is_partition_run(ps),
    ensures
        forall|i: int, j: int| 0 <= i < j < ps.len() ==> precedes(ps[j], ps[i]) && ps[j] != ps[i],
    decreases ps.len(),
{
    if ps.len() > 1 {
        let m = ps.len() - 1;
        let qs = ps.take(m);
        assert(is_partition_run(qs)) by {
            assert forall|i: int| 0 <= i < qs.len() - 1 implies #[trigger] precedes(qs[i + 1], qs[i]) by {
                assert(precedes(ps[i + 1], ps[i]));
            }
        }
        lemma_partition_run(qs);
        assert forall|i: int, j: int| 0 <= i < j < ps.len() implies precedes(ps[j], ps[i]) && ps[j]
            != ps[i] by {
            if j < m {
                assert(qs[i] == ps[i] && qs[j] == ps[j]);
            } else if i < m - 1 {
                let i0 = m - 1;
                assert(precedes(ps[i0 + 1], ps[i0]));
                assert(qs[i] == ps[i] && qs[m - 1] == ps[m - 1]);
                lemma_precedes_trans(ps[m], ps[m - 1], ps[i]);
            } else {
                let i0 = m - 1;
                assert(precedes(ps[i0 + 1], ps[i0]));
            }
            if ps[j] == ps[i] {
                assert(precedes(ps[j], ps[i]));
                let k = choose|k: int| lex_less_at(ps[j], ps[i], k);
                assert(ps[j][k] < ps[i][k]);
            }
        }
    }
}

/// A valid partition sums to at least its first part plus 2 for each
/// other part.
proof fn lemma_sum_lower(q: Seq<usize>)
    requires
        valid_parts(q),
        q.len() >= 1,
    ensures
        sum(q) >= q[0] + 2 * (q.len() - 1),
    decreases q.len(),
{
    let d = q.drop_last();
    assert(sum(q) == sum(d) + q[q.len() - 1]);
    if q.len() > 1 {
        assert(valid_parts(d));
        lemma_sum_lower(d);
        assert(d[0] == q[0]);
        assert(q[q.len() - 1] >= 2);
    } else {
        assert(sum(d) == 0);
    }
}

/// A sequence whose parts after the first are all 2 sums to its first part
/// plus 2 for each other part.
proof fn lemma_sum_twos(q: Seq<usize>)
    requires
        q.len() >= 1,
        forall|i: int| 1 <= i < q.len() ==> #[trigger] q[i] == 2,
    ensures
        sum(q) == q[0] + 2 * (q.len() - 1),
    decreases q.len(),
{
    let d = q.drop_last();
    assert(sum(q) == sum(d) + q[q.len() - 1]);
    if q.len() > 1 {
        assert forall|i: int| 1 <= i < d.len() implies #[trigger] d[i] == 2 by {
            assert(d[i] == q[i]);
        }
        lemma_sum_twos(d);
        assert(d[0] == q[0]);
    } else {
        assert(sum(d) == 0);
    }
}

/// Every other partition of `n` comes before the single part `n`.
proof fn lemma_before_single(q: Seq<usize>, n: usize)
    requires
        valid_parts(q),
        sum(q) == n,
        n >= 2,
        q != seq![n],
    ensures
        precedes(q, seq![n]),
{
    if q.len() == 0 {
        assert(sum(q) == 0);
    }
    lemma_sum_lower(q);
    if q[0] >= n {
        assert(q.len() == 1);
        assert(q =~= seq![n]);
    }
    assert(q.take(0) =~= seq![n].take(0));
    assert(lex_less_at(q, seq![n], 0));
}

/// Nothing of the same sum comes before the last partition.
proof fn lemma_after_last(l: Seq<usize>, q: Seq<usize>)
    requires
        is_last_partition(l),
        valid_parts(q),
        sum(q) == sum(l),
    ensures
        !precedes(q, l),
{
    if precedes(q, l) {
        let k = choose|k: int| lex_less_at(q, l, k);
        assert(q[k] >= 2);
        if k > 0 {
            assert(l[k] == 2);
        }
        assert(k == 0 && q[0] == 2 && l[0] == 3);
        assert forall|i: int| 1 <= i < q.len() implies #[trigger] q[i] == 2 by {
            assert(q[0] >= q[i] && q[i] >= 2);
        }
        lemma_sum_twos(q);
        lemma_sum_twos(l);
    }
}

/// `ps` is the whole walk of `next` from its first state: every state is a
/// valid partition of the same sum, each is the one right after the state
/// before it (nothing of that sum lies between them), and the walk ends at
/// the last partition.
pub open spec fn is_partition_walk(ps: Seq<Seq<usize>>) -> bool {
    &&& ps.len() > 0
    &&& forall|i: int| 0 <= i < ps.len() ==> valid_parts(#[trigger] ps[i]) && sum(ps[i]) == sum(ps[0])
    &&& forall|i: int|
        0 <= i < ps.len() - 1 ==> #[trigger] precedes(ps[i + 1], ps[i]) && forall|q: Seq<usize>|
            valid_parts(q) && sum(q) == sum(ps[0]) && #[trigger] precedes(q, ps[i]) ==> q == ps[i
                + 1] || precedes(q, ps[i + 1])
    &&& is_last_partition(ps.last())
}

/// Stepping with `next` from the single part `n` to the last partition
/// visits every partition of `n` into parts of at least 2: each valid
/// partition of `n` is one of the walk's states (and, by
/// `lemma_partition_run`, only one).
pub proof fn lemma_partition_complete(ps: Seq<Seq<usize>>, n: usize, q: Seq<usize>)
    requires
        is_partition_walk(ps),
        ps[0] == seq![n],
        n >= 2,
        valid_parts(q),
        sum(q) == n,
    ensures
        exists|i: int| 0 <= i < ps.len() && ps[i] == q,
{
    if !(exists|i: int| 0 <= i < ps.len() && ps[i] == q) {
        assert(sum(ps[0]) == n) by {
            let one = seq![n];
            assert(one.drop_last() =~= Seq::<usize>::empty());
            assert(sum(one.drop_last()) == 0);
            assert(sum(one) == sum(one.drop_last()) + one[0]);
        }
        lemma_before_single(q, n);
        lemma_walk_below(ps, q, ps.len() - 1);
        let last = ps.len() - 1;
        assert(valid_parts(ps[last]));
        lemma_after_last(ps[last], q);
    }
}

/// A partition of the walk's sum that is none of its first `i + 1` states,
/// and comes before the first, comes before the `i`-th.
proof fn lemma_walk_below(ps: Seq<Seq<usize>>, q: Seq<usize>, i: int)
    requires
        is_partition_walk(ps),
        0 <= i < ps.len(),
        valid_parts(q),
        sum(q) == sum(ps[0]),
        precedes(q, ps[0]),
        forall|j: int| 0 <= j < ps.len() ==> ps[j] != q,
    ensures
        precedes(q, ps[i]),
    decreases i,
{
    if i > 0 {
        lemma_walk_below(ps, q, i - 1);
        let h = i - 1;
        assert(precedes(ps[h + 1], ps[h]));
        assert(ps[h + 1] != q);
    }
}

} // verus!
