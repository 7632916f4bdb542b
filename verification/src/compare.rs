//! Comparing the set of expressions a search found with the set it should
//! have found.
use vstd::prelude::*;

use crate::text::{chars_of, decimal, decimal_chars, string_from_chars};

verus! {

broadcast use vstd::seq_lib::group_to_multiset_ensures, vstd::multiset::group_multiset_axioms;

/// The order of `str`: lexicographic on characters (which is the order of
/// their UTF-8 bytes).
pub open spec fn str_lt(a: Seq<char>, b: Seq<char>) -> bool
    decreases a.len(),
{
    if a.len() == 0 {
        b.len() > 0
    } else if b.len() == 0 {
        false
    } else if a[0] != b[0] {
        a[0] < b[0]
    } else {
        str_lt(a.drop_first(), b.drop_first())
    }
}

/// The text of each string.
pub open spec fn views(s: Seq<&str>) -> Seq<Seq<char>> {
    Seq::new(s.len(), |i: int| s[i]@)
}

/// No string comes before a later one: largest first.
pub open spec fn sorted_desc(v: Seq<Seq<char>>) -> bool {
    forall|i: int, j: int| 0 <= i < j < v.len() ==> !str_lt(#[trigger] v[i], #[trigger] v[j])
}

/// Two texts with the same first character and the same rest are equal.
proof fn lemma_same_first_rest(a: Seq<char>, b: Seq<char>)
    requires
        a.len() > 0,
        b.len() > 0,
        a[0] == b[0],
        a.drop_first() == b.drop_first(),
    ensures
        a == b,
{
    assert(a.drop_first().len() == a.len() - 1);
    assert(b.drop_first().len() == b.len() - 1);
    assert(a.drop_first().len() == b.drop_first().len());
    assert(a.len() == b.len());
    assert forall|i: int| 0 <= i < a.len() implies a[i] == b[i] by {
        if i > 0 {
            assert(a[i] == a.drop_first()[i - 1]);
            assert(b[i] == b.drop_first()[i - 1]);
        }
    }
    assert(a =~= b);
}

/// `str_lt` is a strict total order.
pub proof fn lemma_str_lt_order(a: Seq<char>, b: Seq<char>, c: Seq<char>)
    ensures
        !str_lt(a, a),
        str_lt(a, b) ==> !str_lt(b, a),
        a != b ==> str_lt(a, b) || str_lt(b, a),
        str_lt(a, b) && str_lt(b, c) ==> str_lt(a, c),
        !str_lt(a, b) && !str_lt(b, c) ==> !str_lt(a, c),
    decreases a.len(),
{
    if a.len() > 0 {
        lemma_str_lt_order(a.drop_first(), a.drop_first(), a.drop_first());
    }
    if a.len() > 0 && b.len() > 0 {
        lemma_str_lt_order(a.drop_first(), b.drop_first(), b.drop_first());
        if a[0] == b[0] && a != b && a.drop_first() == b.drop_first() {
            lemma_same_first_rest(a, b);
        }
        if c.len() > 0 {
            lemma_str_lt_order(a.drop_first(), b.drop_first(), c.drop_first());
        }
    }
    if a.len() > 0 && c.len() > 0 {
        lemma_str_lt_order(a.drop_first(), c.drop_first(), c.drop_first());
        if a[0] == c[0] && a != c && a.drop_first() == c.drop_first() {
            lemma_same_first_rest(a, c);
        }
    }
    if a.len() == 0 && b.len() == 0 {
        assert(a =~= b);
    }
    if a.len() == 0 && c.len() == 0 {
        assert(a =~= c);
    }
}

/// Compare two strings: negative, zero or positive as `a` is below, equal
/// to or above `b`.
pub fn compare_strs(a: &str, b: &str) -> (r: i8)
    ensures
        (r == 0) == (a@ == b@),
        (r < 0) == str_lt(a@, b@),
        (r > 0) == str_lt(b@, a@),
{
    let x = chars_of(a);
    let y = chars_of(b);
    let mut i: usize = 0;
    proof {
        lemma_str_lt_order(a@, b@, b@);
        assert(x@.skip(0) =~= x@);
        assert(y@.skip(0) =~= y@);
    }
    while i < x.len() && i < y.len()
        invariant
            x@ == a@,
            y@ == b@,
            i <= x.len(),
            i <= y.len(),
            x@.take(i as int) == y@.take(i as int),
            str_lt(a@, b@) == str_lt(x@.skip(i as int), y@.skip(i as int)),
            str_lt(b@, a@) == str_lt(y@.skip(i as int), x@.skip(i as int)),
        decreases x.len() - i,
    {
        let c = x[i];
        let d = y[i];
        if c != d {
            proof {
                lemma_str_lt_order(a@, b@, b@);
            }
            if c < d {
                return -1;
            } else {
                return 1;
            }
        }
        proof {
            assert(x@.skip(i as int).drop_first() =~= x@.skip(i + 1));
            assert(y@.skip(i as int).drop_first() =~= y@.skip(i + 1));
            assert(x@.take(i + 1) =~= x@.take(i as int).push(c));
            assert(y@.take(i + 1) =~= y@.take(i as int).push(d));
        }
        i = i + 1;
    }
    proof {
        if i == x.len() && i == y.len() {
            assert(x@ =~= x@.take(i as int));
            assert(y@ =~= y@.take(i as int));
        }
        if i == x.len() && i < y.len() {
            assert(a@ != b@) by {
                assert(a@.len() != b@.len());
            }
        }
        if i < x.len() && i == y.len() {
            assert(a@.len() != b@.len());
        }
    }
    if x.len() == y.len() {
        0
    } else if x.len() < y.len() {
        -1
    } else {
        1
    }
}

/// Exchange the items at `i` and `i + 1`.
fn swap_next(items: &mut [&str], i: usize)
    requires
        i + 1 < old(items)@.len(),
    ensures
        final(items)@ == old(items)@.update(i as int, old(items)@[i + 1]).update(
            i + 1,
            old(items)@[i as int],
        ),
        final(items)@.to_multiset() == old(items)@.to_multiset(),
{
    let t = items[i];
    items[i] = items[i + 1];
    items[i + 1] = t;
    proof {
        let s = old(items)@;
        let s1 = s.update(i as int, s[i + 1]);
        assert(s1.to_multiset() == s.to_multiset().insert(s[i + 1]).remove(s[i as int]));
        assert(s1.update(i + 1, s[i as int]).to_multiset() == s1.to_multiset().insert(
            s[i as int],
        ).remove(s1[i + 1]));
        assert(s1.update(i + 1, s[i as int]).to_multiset() =~= s.to_multiset());
    }
}

/// Sort `items`, largest first.
pub fn sort_descending(items: &mut [&str])
    ensures
        final(items)@.len() == old(items)@.len(),
        final(items)@.to_multiset() == old(items)@.to_multiset(),
        sorted_desc(views(final(items)@)),
{
    let n = items.len();
    let mut i: usize = 0;
    while i < n
        invariant
            0 <= i <= n == items@.len(),
            items@.to_multiset() == old(items)@.to_multiset(),
            forall|k: int, l: int|
                0 <= k < l < i ==> !str_lt(#[trigger] items@[k]@, #[trigger] items@[l]@),
        decreases n - i,
    {
        let mut j = i;
        loop
            invariant
                0 <= j <= i < n == items@.len(),
                items@.to_multiset() == old(items)@.to_multiset(),
                forall|k: int, l: int|
                    0 <= k < l <= i && k != j && l != j ==> !str_lt(
                        #[trigger] items@[k]@,
                        #[trigger] items@[l]@,
                    ),
                forall|k: int, l: int|
                    0 <= k < j < l <= i ==> !str_lt(#[trigger] items@[k]@, #[trigger] items@[l]@),
                forall|l: int| j < l <= i ==> !str_lt(items@[j as int]@, #[trigger] items@[l]@),
            ensures
                0 <= j <= i < n == items@.len(),
                items@.to_multiset() == old(items)@.to_multiset(),
                forall|k: int, l: int|
                    0 <= k < l <= i ==> !str_lt(#[trigger] items@[k]@, #[trigger] items@[l]@),
            decreases j,
        {
            if j == 0 {
                break;
            }
            let c = compare_strs(items[j - 1], items[j]);
            if c >= 0 {
                proof {
                    let v = items@;
                    assert forall|k: int, l: int| 0 <= k < l <= i implies !str_lt(
                        #[trigger] v[k]@,
                        #[trigger] v[l]@,
                    ) by {
                        if l == j {
                            if k < j - 1 {
                                lemma_str_lt_order(v[k]@, v[j - 1]@, v[l]@);
                            }
                        }
                    }
                }
                break;
            }
            let ghost v = items@;
            swap_next(items, j - 1);
            proof {
                let w = items@;
                lemma_str_lt_order(v[j - 1]@, v[j as int]@, v[j as int]@);
                assert forall|k: int, l: int|
                    0 <= k < l <= i && k != j - 1 && l != j - 1 implies !str_lt(
                    #[trigger] w[k]@,
                    #[trigger] w[l]@,
                ) by {
                    if k == j {
                        assert(w[k] == v[j - 1]);
                        assert(!str_lt(v[j - 1]@, v[l]@));
                    } else if l == j {
                        assert(w[l] == v[j - 1]);
                        assert(!str_lt(v[k]@, v[j - 1]@));
                    } else {
                        assert(w[k] == v[k] && w[l] == v[l]);
                    }
                }
                assert forall|l: int| j - 1 < l <= i implies !str_lt(
                    w[j - 1]@,
                    #[trigger] w[l]@,
                ) by {
                    if l == j {
                        assert(w[l] == v[j - 1]);
                    } else {
                        assert(w[l] == v[l]);
                    }
                }
            }
            j = j - 1;
        }
        i = i + 1;
    }
    proof {
        let v = views(items@);
        assert forall|k: int, l: int| 0 <= k < l < v.len() implies !str_lt(
            #[trigger] v[k],
            #[trigger] v[l],
        ) by {
            assert(v[k] == items@[k]@);
            assert(v[l] == items@[l]@);
        }
    }
}

/// The text of each vector of characters.
pub open spec fn texts(v: Seq<Vec<char>>) -> Seq<Seq<char>> {
    Seq::new(v.len(), |i: int| v[i]@)
}

/// The items of `s`, leaving out each one equal to the item before it.
pub open spec fn dedup(s: Seq<Seq<char>>) -> Seq<Seq<char>>
    decreases s.len(),
{
    if s.len() == 0 {
        s
    } else if s.len() >= 2 && s[s.len() - 2] == s.last() {
        dedup(s.drop_last())
    } else {
        dedup(s.drop_last()).push(s.last())
    }
}

/// The items of `s` that `other` does not hold.
pub open spec fn absent_from(s: Seq<Seq<char>>, other: Seq<Seq<char>>) -> Seq<Seq<char>>
    decreases s.len(),
{
    if s.len() == 0 {
        s
    } else if other.contains(s.last()) {
        absent_from(s.drop_last(), other)
    } else {
        absent_from(s.drop_last(), other).push(s.last())
    }
}

/// The number of items at the end of `s` equal to its last item.
pub open spec fn tail_run(s: Seq<Seq<char>>) -> nat
    decreases s.len(),
{
    if s.len() == 0 {
        0
    } else if s.len() >= 2 && s[s.len() - 2] == s.last() {
        tail_run(s.drop_last()) + 1
    } else {
        1
    }
}

/// A nonempty sequence ends in a run of at least one item.
pub proof fn lemma_tail_run_bounds(s: Seq<Seq<char>>)
    ensures
        s.len() > 0 ==> 1 <= tail_run(s) <= s.len(),
        s.len() == 0 ==> tail_run(s) == 0,
    decreases s.len(),
{
    if s.len() > 0 {
        lemma_tail_run_bounds(s.drop_last());
    }
}

/// Each run of equal neighbouring items longer than one item: the item and
/// the length of the run.
pub open spec fn dup_runs(s: Seq<Seq<char>>) -> Seq<(Seq<char>, nat)>
    decreases s.len(),
{
    if s.len() == 0 {
        Seq::empty()
    } else {
        proof {
            lemma_tail_run_bounds(s);
        }
        let k = tail_run(s);
        let rest = dup_runs(s.take(s.len() - k));
        if k >= 2 {
            rest.push((s.last(), k))
        } else {
            rest
        }
    }
}

/// The items joined by `sep`.
pub open spec fn join(items: Seq<Seq<char>>, sep: Seq<char>) -> Seq<char>
    decreases items.len(),
{
    if items.len() == 0 {
        Seq::empty()
    } else if items.len() == 1 {
        items[0]
    } else {
        join(items.drop_last(), sep) + sep + items.last()
    }
}

/// A duplicated item and how often it occurs: `item [count]`.
pub open spec fn dup_entry(d: (Seq<char>, nat)) -> Seq<char> {
    d.0 + " ["@ + decimal(d.1) + "]"@
}

/// The number of bytes of a character in UTF-8.
pub open spec fn utf8_len(c: char) -> nat {
    let u = c as u32;
    if u < 0x80 {
        1
    } else if u < 0x800 {
        2
    } else if u < 0x10000 {
        3
    } else {
        4
    }
}

/// The number of bytes of a text in UTF-8.
pub open spec fn byte_len(s: Seq<char>) -> nat
    decreases s.len(),
{
    if s.len() == 0 {
        0
    } else {
        byte_len(s.drop_last()) + utf8_len(s.last())
    }
}

/// The longest start of `s` whose UTF-8 encoding fits in `n` bytes.
pub open spec fn byte_prefix(s: Seq<char>, n: nat) -> Seq<char>
    decreases s.len(),
{
    if s.len() == 0 || utf8_len(s[0]) > n {
        Seq::empty()
    } else {
        seq![s[0]] + byte_prefix(s.drop_first(), (n - utf8_len(s[0])) as nat)
    }
}

/// A line of 70 bytes or more cut to its first 70 bytes (never inside a
/// character), with `...` after it.
pub open spec fn shorten_spec(s: Seq<char>) -> Seq<char> {
    if byte_len(s) < 70 {
        s
    } else {
        byte_prefix(s, 70) + "..."@
    }
}

/// The characters that `char::is_whitespace` accepts.
pub open spec fn is_space(c: char) -> bool {
    let u = c as u32;
    ||| 0x09 <= u <= 0x0d
    ||| u == 0x20
    ||| u == 0x85
    ||| u == 0xa0
    ||| u == 0x1680
    ||| 0x2000 <= u <= 0x200a
    ||| u == 0x2028
    ||| u == 0x2029
    ||| u == 0x202f
    ||| u == 0x205f
    ||| u == 0x3000
}

/// `s` without the white space at its end.
pub open spec fn trim_end(s: Seq<char>) -> Seq<char>
    decreases s.len(),
{
    if s.len() > 0 && is_space(s.last()) {
        trim_end(s.drop_last())
    } else {
        s
    }
}

/// One line of the report: a title and the items, or nothing when there
/// are no items.
pub open spec fn section(title: Seq<char>, items: Seq<Seq<char>>) -> Seq<char> {
    if items.len() == 0 {
        Seq::empty()
    } else {
        shorten_spec(title + join(items, ", "@) + "\n"@)
    }
}

/// The report on the sorted sets `e` (expected) and `a` (actual): the items
/// missing from `a`, the items `a` should not hold, and the items `a` holds
/// more than once.
pub open spec fn report(e: Seq<Seq<char>>, a: Seq<Seq<char>>) -> Seq<char> {
    section("Missing items: "@, absent_from(dedup(e), a)) + section(
        "Unexpected items: "@,
        absent_from(dedup(a), e),
    ) + section("Duplicated items: "@, dup_runs(a).map_values(|d: (Seq<char>, nat)| dup_entry(d)))
}

/// Compare two character vectors as `compare_strs` does.
fn compare_texts(x: &Vec<char>, y: &Vec<char>) -> (r: i8)
    ensures
        (r == 0) == (x@ == y@),
        (r < 0) == str_lt(x@, y@),
        (r > 0) == str_lt(y@, x@),
{
    let mut i: usize = 0;
    proof {
        lemma_str_lt_order(x@, y@, y@);
        assert(x@.skip(0) =~= x@);
        assert(y@.skip(0) =~= y@);
    }
    while i < x.len() && i < y.len()
        invariant
            i <= x.len(),
            i <= y.len(),
            x@.take(i as int) == y@.take(i as int),
            str_lt(x@, y@) == str_lt(x@.skip(i as int), y@.skip(i as int)),
            str_lt(y@, x@) == str_lt(y@.skip(i as int), x@.skip(i as int)),
        decreases x.len() - i,
    {
        let c = x[i];
        let d = y[i];
        if c != d {
            proof {
                lemma_str_lt_order(x@, y@, y@);
            }
            if c < d {
                return -1;
            } else {
                return 1;
            }
        }
        proof {
            assert(x@.skip(i as int).drop_first() =~= x@.skip(i + 1));
            assert(y@.skip(i as int).drop_first() =~= y@.skip(i + 1));
            assert(x@.take(i + 1) =~= x@.take(i as int).push(c));
            assert(y@.take(i + 1) =~= y@.take(i as int).push(d));
        }
        i = i + 1;
    }
    proof {
        if i == x.len() && i == y.len() {
            assert(x@ =~= x@.take(i as int));
            assert(y@ =~= y@.take(i as int));
        }
        if i == x.len() && i < y.len() {
            assert(x@.len() != y@.len());
        }
        if i < x.len() && i == y.len() {
            assert(x@.len() != y@.len());
        }
    }
    if x.len() == y.len() {
        0
    } else if x.len() < y.len() {
        -1
    } else {
        1
    }
}

/// The characters of each string.
fn texts_of(items: &[&str]) -> (r: Vec<Vec<char>>)
    ensures
        texts(r@) == views(items@),
{
    let mut r: Vec<Vec<char>> = Vec::new();
    let mut i: usize = 0;
    while i < items.len()
        invariant
            i <= items@.len(),
            r@.len() == i,
            forall|j: int| 0 <= j < i ==> #[trigger] r@[j]@ == items@[j]@,
        decreases items.len() - i,
    {
        r.push(chars_of(items[i]));
        i = i + 1;
    }
    assert(texts(r@) =~= views(items@));
    r
}

/// The index after the run of items equal to `v[i]` that starts at `i`.
fn skip_run(v: &Vec<Vec<char>>, i: usize) -> (j: usize)
    requires
        i < v@.len(),
    ensures
        i < j <= v@.len(),
        forall|k: int| i <= k < j ==> #[trigger] v@[k]@ == v@[i as int]@,
        j < v@.len() ==> v@[j as int]@ != v@[i as int]@,
{
    let n = v.len();
    let mut j = i + 1;
    while j < n && compare_texts(&v[j], &v[i]) == 0
        invariant
            n == v@.len(),
            i < j <= v@.len(),
            forall|k: int| i <= k < j ==> #[trigger] v@[k]@ == v@[i as int]@,
        decreases n - j,
    {
        j = j + 1;
    }
    j
}

/// `i` starts a run: it is the first index or its item differs from the one
/// before.
pub open spec fn run_start(s: Seq<Seq<char>>, i: int) -> bool {
    i == 0 || i == s.len() || s[i - 1] != s[i]
}

/// Extending a prefix that ends where a run starts by the whole run adds
/// the run's item once to the prefix without repeats.
proof fn lemma_dedup_run(s: Seq<Seq<char>>, i: int, j: int)
    requires
        0 <= i < j <= s.len(),
        run_start(s, i),
        forall|k: int| i <= k < j ==> #[trigger] s[k] == s[i],
    ensures
        dedup(s.take(j)) == dedup(s.take(i)).push(s[i]),
    decreases j - i,
{
    if j == i + 1 {
        assert(s.take(j).drop_last() =~= s.take(i));
    } else {
        lemma_dedup_run(s, i, j - 1);
        assert(s.take(j).drop_last() =~= s.take(j - 1));
        assert(s.take(j)[j - 2] == s[i]);
    }
}

/// In a sorted sequence, every item after the end of a run is below the
/// run's item.
proof fn lemma_below_run(s: Seq<Seq<char>>, j: int, j2: int, l: int)
    requires
        sorted_desc(s),
        0 <= j < j2 <= l < s.len(),
        s[j2] != s[j],
    ensures
        str_lt(s[l], s[j]),
{
    lemma_str_lt_order(s[j2], s[j], s[j]);
    assert(!str_lt(s[j], s[j2]));
    if l > j2 {
        assert(!str_lt(s[j2], s[l]));
        lemma_str_lt_order(s[j2], s[l], s[j]);
        lemma_str_lt_order(s[l], s[j], s[j]);
    }
}

/// The items that one sorted set holds and the other lacks, each once.
#[verifier::rlimit(40)]
fn differences(e: &Vec<Vec<char>>, a: &Vec<Vec<char>>) -> (r: (Vec<Vec<char>>, Vec<Vec<char>>))
    requires
        sorted_desc(texts(e@)),
        sorted_desc(texts(a@)),
    ensures
        texts(r.0@) == absent_from(dedup(texts(e@)), texts(a@)),
        texts(r.1@) == absent_from(dedup(texts(a@)), texts(e@)),
{
    let ghost es = texts(e@);
    let ghost as_ = texts(a@);
    let mut missing: Vec<Vec<char>> = Vec::new();
    let mut unexpected: Vec<Vec<char>> = Vec::new();
    let mut i: usize = 0;
    let mut j: usize = 0;
    proof {
        assert(es.take(0) =~= Seq::<Seq<char>>::empty());
        assert(as_.take(0) =~= Seq::<Seq<char>>::empty());
        assert(texts(missing@) =~= Seq::<Seq<char>>::empty());
        assert(texts(unexpected@) =~= Seq::<Seq<char>>::empty());
    }
    while i < e.len() || j < a.len()
        invariant
            es == texts(e@),
            as_ == texts(a@),
            sorted_desc(es),
            sorted_desc(as_),
            i <= es.len(),
            j <= as_.len(),
            run_start(es, i as int),
            run_start(as_, j as int),
            texts(missing@) == absent_from(dedup(es.take(i as int)), as_),
            texts(unexpected@) == absent_from(dedup(as_.take(j as int)), es),
            forall|k: int, l: int|
                0 <= k < i && j <= l < as_.len() ==> str_lt(#[trigger] as_[l], #[trigger] es[k]),
            forall|k: int, l: int|
                0 <= l < j && i <= k < es.len() ==> str_lt(#[trigger] es[k], #[trigger] as_[l]),
        decreases es.len() - i + as_.len() - j,
    {
        let a_first = j < a.len() && (i == e.len() || compare_texts(&a[j], &e[i]) > 0);
        let e_first = !a_first && i < e.len() && (j == a.len() || compare_texts(&e[i], &a[j]) > 0);
        if a_first {
            let j2 = skip_run(a, j);
            let ghost x = as_[j as int];
            proof {
                assert forall|k: int| 0 <= k < es.len() implies es[k] != x by {
                    if k >= i {
                        lemma_str_lt_order(es[k], es[i as int], x);
                        lemma_str_lt_order(es[k], x, x);
                    } else {
                        assert(str_lt(as_[j as int], es[k]));
                        lemma_str_lt_order(x, x, x);
                    }
                }
                assert(!es.contains(x));
                lemma_dedup_run(as_, j as int, j2 as int);
                assert(dedup(as_.take(j2 as int)).drop_last() == dedup(as_.take(j as int)));
                assert forall|k: int, l: int|
                    0 <= l < j2 && i <= k < es.len() implies str_lt(
                    #[trigger] es[k],
                    #[trigger] as_[l],
                ) by {
                    if l >= j {
                        assert(as_[l] == x);
                        if k > i {
                            lemma_str_lt_order(es[k], es[i as int], x);
                        }
                    }
                }
            }
            unexpected.push(a[j].clone());
            proof {
                assert(texts(unexpected@) =~= texts(unexpected@).drop_last().push(x));
            }
            j = j2;
        } else if e_first {
            let i2 = skip_run(e, i);
            let ghost x = es[i as int];
            proof {
                assert forall|l: int| 0 <= l < as_.len() implies as_[l] != x by {
                    if l >= j {
                        lemma_str_lt_order(as_[l], as_[j as int], x);
                        lemma_str_lt_order(as_[l], x, x);
                    } else {
                        assert(str_lt(es[i as int], as_[l]));
                        lemma_str_lt_order(x, x, x);
                    }
                }
                assert(!as_.contains(x));
                lemma_dedup_run(es, i as int, i2 as int);
                assert(dedup(es.take(i2 as int)).drop_last() == dedup(es.take(i as int)));
                assert forall|k: int, l: int|
                    0 <= k < i2 && j <= l < as_.len() implies str_lt(
                    #[trigger] as_[l],
                    #[trigger] es[k],
                ) by {
                    if k >= i {
                        assert(es[k] == x);
                        if l > j {
                            lemma_str_lt_order(as_[l], as_[j as int], x);
                        }
                    }
                }
            }
            missing.push(e[i].clone());
            proof {
                assert(texts(missing@) =~= texts(missing@).drop_last().push(x));
            }
            i = i2;
        } else {
            let i2 = skip_run(e, i);
            let j2 = skip_run(a, j);
            let ghost x = es[i as int];
            proof {
                lemma_str_lt_order(es[i as int], as_[j as int], as_[j as int]);
                assert(x == as_[j as int]);
                assert(es.contains(x));
                assert(as_.contains(x));
                lemma_dedup_run(es, i as int, i2 as int);
                lemma_dedup_run(as_, j as int, j2 as int);
                assert(dedup(es.take(i2 as int)).drop_last() == dedup(es.take(i as int)));
                assert(dedup(as_.take(j2 as int)).drop_last() == dedup(as_.take(j as int)));
                assert forall|k: int, l: int|
                    0 <= k < i2 && j2 <= l < as_.len() implies str_lt(
                    #[trigger] as_[l],
                    #[trigger] es[k],
                ) by {
                    if k >= i {
                        assert(es[k] == x);
                        lemma_below_run(as_, j as int, j2 as int, l);
                    } else {
                        assert(str_lt(as_[l], es[k]));
                    }
                }
                assert forall|k: int, l: int|
                    0 <= l < j2 && i2 <= k < es.len() implies str_lt(
                    #[trigger] es[k],
                    #[trigger] as_[l],
                ) by {
                    if l >= j {
                        assert(as_[l] == x);
                        lemma_below_run(es, i as int, i2 as int, k);
                    } else {
                        assert(str_lt(es[k], as_[l]));
                    }
                }
            }
            i = i2;
            j = j2;
        }
    }
    proof {
        assert(es.take(i as int) =~= es);
        assert(as_.take(j as int) =~= as_);
    }
    (missing, unexpected)
}

/// Each text with the count beside it.
pub open spec fn pairs(t: Seq<Vec<char>>, c: Seq<usize>) -> Seq<(Seq<char>, nat)> {
    Seq::new(t.len(), |j: int| (t[j]@, c[j] as nat))
}

proof fn lemma_tail_run_push(s: Seq<Seq<char>>, x: Seq<char>)
    ensures
        tail_run(s.push(x)) == if s.len() > 0 && s.last() == x {
            tail_run(s) + 1
        } else {
            1
        },
{
    assert(s.push(x).drop_last() =~= s);
}

/// Every item of `dup_runs(s)` is an item of `s`.
proof fn lemma_dup_runs_items(s: Seq<Seq<char>>)
    ensures
        forall|k: int|
            0 <= k < dup_runs(s).len() ==> exists|m: int|
                0 <= m < s.len() && s[m] == #[trigger] dup_runs(s)[k].0,
    decreases s.len(),
{
    if s.len() > 0 {
        lemma_tail_run_bounds(s);
        let t = tail_run(s);
        let p = s.take(s.len() - t);
        lemma_dup_runs_items(p);
        assert forall|k: int| 0 <= k < dup_runs(s).len() implies exists|m: int|
            0 <= m < s.len() && s[m] == #[trigger] dup_runs(s)[k].0 by {
            if k < dup_runs(p).len() {
                let m = choose|m: int| 0 <= m < p.len() && p[m] == dup_runs(p)[k].0;
                assert(s[m] == p[m]);
            } else {
                assert(s[s.len() - 1] == dup_runs(s)[k].0);
            }
        }
    }
}

/// The runs of equal neighbours of a sorted set, with their lengths.
#[verifier::rlimit(40)]
fn duplicate_runs(a: &Vec<Vec<char>>) -> (r: (Vec<Vec<char>>, Vec<usize>))
    requires
        sorted_desc(texts(a@)),
    ensures
        r.0@.len() == r.1@.len(),
        pairs(r.0@, r.1@) == dup_runs(texts(a@)),
{
    let ghost s = texts(a@);
    let mut items: Vec<Vec<char>> = Vec::new();
    let mut counts: Vec<usize> = Vec::new();
    let n = a.len();
    if n == 0 {
        proof {
            assert(pairs(items@, counts@) =~= dup_runs(s));
        }
        return (items, counts);
    }
    let mut i: usize = 1;
    proof {
        assert(s.take(1).drop_last() =~= s.take(0));
        assert(dup_runs(s.take(1)) == dup_runs(s.take(0)));
        assert(pairs(items@, counts@) =~= dup_runs(s.take(1)));
    }
    while i < n
        invariant
            n == a@.len() == s.len(),
            s == texts(a@),
            sorted_desc(s),
            1 <= i <= n,
            items@.len() == counts@.len(),
            pairs(items@, counts@) == dup_runs(s.take(i as int)),
            forall|j: int| 0 <= j < counts@.len() ==> counts@[j] <= i,
        decreases n - i,
    {
        let ghost p = s.take(i as int);
        let ghost q = s.take(i + 1);
        proof {
            assert(q =~= p.push(s[i as int]));
            lemma_tail_run_push(p, s[i as int]);
            lemma_tail_run_bounds(p);
            lemma_tail_run_bounds(q);
            assert(p.last() == s[i - 1]);
        }
        if compare_texts(&a[i], &a[i - 1]) == 0 {
            let ghost k = tail_run(p);
            proof {
                assert(q.take(q.len() - tail_run(q)) =~= p.take(p.len() - k));
            }
            let last_matches = items.len() > 0 && compare_texts(&items[items.len() - 1], &a[i])
                == 0;
            if last_matches {
                let m = items.len() - 1;
                proof {
                    if k < 2 {
                        lemma_dup_runs_items(s.take(i - 1));
                        assert(p.take(p.len() - k) =~= s.take(i - 1));
                        let pre = s.take(i - 1);
                        assert(dup_runs(pre)[m as int].0 == dup_runs(pre)[m as int].0);
                        let mm = choose|mm: int|
                            0 <= mm < pre.len() && pre[mm] == #[trigger] dup_runs(pre)[m as int].0;
                        assert(s[mm] == s[i as int]);
                        assert(i >= 2 && s[i - 2] != s[i - 1]) by {
                            if i >= 2 && s[i - 2] == s[i - 1] {
                                assert(p[p.len() - 2] == p.last());
                            }
                        }
                        lemma_below_run(s, i - 2, i - 1, i - 1);
                        if mm < i - 2 {
                            assert(!str_lt(s[mm], s[i - 2]));
                        }
                        assert(false);
                    }
                    assert(k >= 2);
                    assert(dup_runs(p) == dup_runs(p.take(p.len() - k)).push((p.last(), k)));
                    assert(dup_runs(q) == dup_runs(q.take(q.len() - (k + 1))).push(
                        (q.last(), (k + 1) as nat),
                    ));
                    assert(pairs(items@, counts@).last() == (s[i - 1], k));
                }
                let c = counts[m];
                let ghost before = pairs(items@, counts@);
                counts.set(m, c + 1);
                proof {
                    assert(before[m as int] == (s[i - 1], k));
                    assert(c == k);
                    assert(pairs(items@, counts@) =~= before.update(m as int, (s[i as int], (k + 1) as nat)));
                    assert(q.last() == s[i as int]);
                    assert(before.update(m as int, (s[i as int], (k + 1) as nat)) =~= dup_runs(q));
                }
            } else {
                proof {
                    if k >= 2 {
                        assert(pairs(items@, counts@).last() == (s[i - 1], k));
                        assert(items@[items@.len() - 1]@ == s[i - 1]);
                    }
                    assert(k == 1);
                    assert(p.take(p.len() - 1) =~= s.take(i - 1));
                }
                items.push(a[i].clone());
                counts.push(2);
                proof {
                    assert(pairs(items@, counts@) =~= dup_runs(q));
                }
            }
        } else {
            proof {
                assert(q.take(q.len() - 1) =~= p);
            }
        }
        i = i + 1;
    }
    proof {
        assert(s.take(n as int) =~= s);
    }
    (items, counts)
}

/// `parts` joined by `sep`.
fn join_texts(parts: &Vec<Vec<char>>, sep: &Vec<char>) -> (r: Vec<char>)
    ensures
        r@ == join(texts(parts@), sep@),
{
    let mut r: Vec<char> = Vec::new();
    let mut i: usize = 0;
    proof {
        assert(texts(parts@).take(0) =~= Seq::<Seq<char>>::empty());
    }
    while i < parts.len()
        invariant
            i <= parts@.len(),
            r@ == join(texts(parts@).take(i as int), sep@),
        decreases parts.len() - i,
    {
        let ghost t = texts(parts@);
        proof {
            assert(t.take(i + 1).drop_last() =~= t.take(i as int));
            if i == 0 {
                assert(t.take(1) =~= seq![t[0]]);
            }
        }
        if i > 0 {
            append_chars(&mut r, sep);
        }
        append_chars(&mut r, &parts[i]);
        proof {
            assert(t.take(i + 1).last() == parts@[i as int]@);
        }
        i = i + 1;
    }
    proof {
        assert(texts(parts@).take(parts@.len() as int) =~= texts(parts@));
    }
    r
}

/// Append the characters of `tail` to `r`.
fn append_chars(r: &mut Vec<char>, tail: &Vec<char>)
    ensures
        final(r)@ == old(r)@ + tail@,
{
    let mut i: usize = 0;
    while i < tail.len()
        invariant
            i <= tail@.len(),
            r@ == old(r)@ + tail@.take(i as int),
        decreases tail.len() - i,
    {
        r.push(tail[i]);
        proof {
            assert(tail@.take(i + 1) =~= tail@.take(i as int).push(tail@[i as int]));
        }
        i = i + 1;
    }
    proof {
        assert(tail@.take(tail@.len() as int) =~= tail@);
    }
}

/// The number of bytes of `c` in UTF-8.
pub(crate) fn utf8_bytes(c: char) -> (r: usize)
    ensures
        r == utf8_len(c),
{
    let u = c as u32;
    if u < 0x80 {
        1
    } else if u < 0x800 {
        2
    } else if u < 0x10000 {
        3
    } else {
        4
    }
}

proof fn lemma_byte_len_take(s: Seq<char>, i: int)
    requires
        0 <= i < s.len(),
    ensures
        byte_len(s.take(i + 1)) == byte_len(s.take(i)) + utf8_len(s[i]),
{
    assert(s.take(i + 1).drop_last() =~= s.take(i));
}

proof fn lemma_byte_len_mono(s: Seq<char>, i: int)
    requires
        0 <= i <= s.len(),
    ensures
        byte_len(s.take(i)) <= byte_len(s),
    decreases s.len() - i,
{
    if i < s.len() {
        lemma_byte_len_take(s, i);
        lemma_byte_len_mono(s, i + 1);
    } else {
        assert(s.take(i) =~= s);
    }
}

/// A line of 70 bytes or more cut to its first 70 bytes, with `...`.
fn shorten(line: &Vec<char>) -> (r: Vec<char>)
    ensures
        r@ == shorten_spec(line@),
{
    let n = line.len();
    let mut i: usize = 0;
    let mut total: usize = 0;
    proof {
        assert(line@.take(0) =~= Seq::<char>::empty());
    }
    while i < n && total < 70
        invariant
            n == line@.len(),
            i <= n,
            total == byte_len(line@.take(i as int)),
            total < 74,
        decreases n - i,
    {
        proof {
            lemma_byte_len_take(line@, i as int);
        }
        total = total + utf8_bytes(line[i]);
        i = i + 1;
    }
    if total < 70 {
        proof {
            assert(line@.take(i as int) =~= line@);
        }
        return line.clone();
    }
    proof {
        lemma_byte_len_mono(line@, i as int);
    }
    let mut r: Vec<char> = Vec::new();
    let mut m: usize = 0;
    let mut used: usize = 0;
    proof {
        assert(line@.skip(0) =~= line@);
    }
    while m < n && used + utf8_bytes(line[m]) <= 70
        invariant
            n == line@.len(),
            m <= n,
            used <= 70,
            r@ == line@.take(m as int),
            byte_prefix(line@, 70) == r@ + byte_prefix(line@.skip(m as int), (70 - used) as nat),
        decreases n - m,
    {
        let w = utf8_bytes(line[m]);
        proof {
            let t = line@.skip(m as int);
            assert(t[0] == line@[m as int]);
            assert(t.drop_first() =~= line@.skip(m + 1));
            assert(byte_prefix(t, (70 - used) as nat) == seq![line@[m as int]] + byte_prefix(
                line@.skip(m + 1),
                (70 - used - w) as nat,
            ));
            assert(line@.take(m + 1) =~= line@.take(m as int).push(line@[m as int]));
        }
        r.push(line[m]);
        used = used + w;
        m = m + 1;
    }
    proof {
        let t = line@.skip(m as int);
        if m < n {
            assert(t[0] == line@[m as int]);
        }
        assert(byte_prefix(t, (70 - used) as nat) =~= Seq::<char>::empty());
        assert(r@ + Seq::<char>::empty() =~= r@);
    }
    let dots = chars_of("...");
    append_chars(&mut r, &dots);
    r
}

/// Whether `c` is white space, as `char::is_whitespace` decides.
fn is_space_char(c: char) -> (r: bool)
    ensures
        r == is_space(c),
{
    let u = c as u32;
    (0x09 <= u && u <= 0x0d) || u == 0x20 || u == 0x85 || u == 0xa0 || u == 0x1680 || (0x2000
        <= u && u <= 0x200a) || u == 0x2028 || u == 0x2029 || u == 0x202f || u == 0x205f || u
        == 0x3000
}

/// `s` without the white space at its end.
fn trim_end_chars(s: &Vec<char>) -> (r: Vec<char>)
    ensures
        r@ == trim_end(s@),
{
    let mut k = s.len();
    proof {
        assert(s@.take(k as int) =~= s@);
    }
    while k > 0 && is_space_char(s[k - 1])
        invariant
            k <= s@.len(),
            trim_end(s@) == trim_end(s@.take(k as int)),
        decreases k,
    {
        proof {
            assert(s@.take(k as int).drop_last() =~= s@.take(k - 1));
        }
        k = k - 1;
    }
    let mut r: Vec<char> = Vec::new();
    let mut i: usize = 0;
    while i < k
        invariant
            k <= s@.len(),
            i <= k,
            r@ == s@.take(i as int),
        decreases k - i,
    {
        r.push(s[i]);
        proof {
            assert(s@.take(i + 1) =~= s@.take(i as int).push(s@[i as int]));
        }
        i = i + 1;
    }
    r
}

/// One line of the report.
fn section_text(title: &str, items: &Vec<Vec<char>>) -> (r: Vec<char>)
    ensures
        r@ == section(title@, texts(items@)),
{
    if items.len() == 0 {
        return Vec::new();
    }
    let mut line = chars_of(title);
    let sep = chars_of(", ");
    let joined = join_texts(items, &sep);
    append_chars(&mut line, &joined);
    let newline = chars_of("\n");
    append_chars(&mut line, &newline);
    shorten(&line)
}

/// The text of each duplicated item with its count.
fn dup_entries(items: &Vec<Vec<char>>, counts: &Vec<usize>) -> (r: Vec<Vec<char>>)
    requires
        items@.len() == counts@.len(),
    ensures
        texts(r@) == pairs(items@, counts@).map_values(|d: (Seq<char>, nat)| dup_entry(d)),
{
    let mut r: Vec<Vec<char>> = Vec::new();
    let mut i: usize = 0;
    let open = chars_of(" [");
    let close = chars_of("]");
    while i < items.len()
        invariant
            items@.len() == counts@.len(),
            i <= items@.len(),
            open@ == " ["@,
            close@ == "]"@,
            r@.len() == i,
            forall|j: int|
                0 <= j < i ==> #[trigger] r@[j]@ == dup_entry((items@[j]@, counts@[j] as nat)),
        decreases items.len() - i,
    {
        let mut e = items[i].clone();
        append_chars(&mut e, &open);
        let digits = decimal_chars(counts[i] as u128);
        append_chars(&mut e, &digits);
        append_chars(&mut e, &close);
        r.push(e);
        i = i + 1;
    }
    proof {
        assert(texts(r@) =~= pairs(items@, counts@).map_values(
            |d: (Seq<char>, nat)| dup_entry(d),
        ));
    }
    r
}

/// Compare the set of items a search should find (`expected`) with the
/// items it found (`actual`). Both are sorted in place, largest first. The
/// result is `Ok` when every expected item was found, no other item was
/// found, and no item was found twice; otherwise the error lists, each on a
/// line of its own cut to 70 bytes, the missing items, the unexpected items,
/// and the duplicated items with their counts.
pub fn compare_sets(expected: &mut [&str], actual: &mut [&str]) -> (r: Result<(), String>)
    ensures
        final(expected)@.to_multiset() == old(expected)@.to_multiset(),
        final(actual)@.to_multiset() == old(actual)@.to_multiset(),
        sorted_desc(views(final(expected)@)),
        sorted_desc(views(final(actual)@)),
        match r {
            Ok(()) => report(views(final(expected)@), views(final(actual)@)).len() == 0,
            Err(m) => report(views(final(expected)@), views(final(actual)@)).len() > 0 && m@
                == trim_end(report(views(final(expected)@), views(final(actual)@))),
        },
{
    sort_descending(expected);
    sort_descending(actual);
    let ev = texts_of(expected);
    let av = texts_of(actual);
    let (missing, unexpected) = differences(&ev, &av);
    let (dup_items, dup_counts) = duplicate_runs(&av);
    let entries = dup_entries(&dup_items, &dup_counts);
    let mut msg = section_text("Missing items: ", &missing);
    let second = section_text("Unexpected items: ", &unexpected);
    append_chars(&mut msg, &second);
    let third = section_text("Duplicated items: ", &entries);
    append_chars(&mut msg, &third);
    if msg.len() == 0 {
        Ok(())
    } else {
        let trimmed = trim_end_chars(&msg);
        Err(string_from_chars(&trimmed))
    }
}

/// Strings that are a rearrangement of each other have texts that are.
proof fn lemma_views_multiset(s1: Seq<&str>, s2: Seq<&str>)
    requires
        s1.to_multiset() == s2.to_multiset(),
    ensures
        views(s1).to_multiset() == views(s2).to_multiset(),
    decreases s1.len(),
{
    if s1.len() == 0 {
        assert(s1.to_multiset().len() == 0);
        assert(s2.to_multiset().len() == s2.len());
        assert(s2.len() == 0);
        assert(views(s1) =~= views(s2));
    } else {
        let n = s1.len() - 1;
        let x = s1[n];
        assert(s1.contains(x));
        assert(s2.to_multiset().count(x) > 0);
        assert(s2.contains(x));
        let k = choose|k: int| 0 <= k < s2.len() && s2[k] == x;
        assert(s1.remove(n) =~= s1.drop_last());
        assert(s1.drop_last().to_multiset() == s2.remove(k).to_multiset());
        lemma_views_multiset(s1.drop_last(), s2.remove(k));
        assert(views(s1) =~= views(s1.drop_last()).push(x@));
        assert(views(s2).remove(k) =~= views(s2.remove(k)));
        assert(views(s2)[k] == x@);
        let m = views(s2).to_multiset();
        assert(views(s2).remove(k).to_multiset() == m.remove(x@));
        assert(views(s2).contains(x@));
        assert(m.count(x@) > 0);
        assert(m.remove(x@).insert(x@) =~= m);
    }
}

/// `compare_sets` on found items held as `String`s.
pub fn compare_sets_owned(expected: &mut [&str], actual: &[String]) -> (r: Result<(), String>)
    ensures
        final(expected)@.to_multiset() == old(expected)@.to_multiset(),
        sorted_desc(views(final(expected)@)),
        exists|found: Seq<Seq<char>>|
            {
                &&& found.to_multiset() == Seq::new(actual@.len(), |i: int| actual@[i]@).to_multiset()
                &&& sorted_desc(found)
                &&& match r {
                    Ok(()) => report(views(final(expected)@), found).len() == 0,
                    Err(m) => report(views(final(expected)@), found).len() > 0 && m@ == trim_end(
                        report(views(final(expected)@), found),
                    ),
                }
            },
{
    let mut found: Vec<&str> = Vec::new();
    let mut i: usize = 0;
    while i < actual.len()
        invariant
            i <= actual@.len(),
            found@.len() == i,
            forall|j: int| 0 <= j < i ==> #[trigger] found@[j]@ == actual@[j]@,
        decreases actual.len() - i,
    {
        found.push(actual[i].as_str());
        i = i + 1;
    }
    let ghost before = found@;
    let r = compare_sets(expected, found.as_mut_slice());
    proof {
        let w = views(found@);
        assert(views(before) =~= Seq::new(actual@.len(), |i: int| actual@[i]@));
        lemma_views_multiset(before, found@);
        assert(w.to_multiset() == views(before).to_multiset());
    }
    r
}

/// The number of items of `s` equal to `x`.
pub open spec fn count_of(s: Seq<Seq<char>>, x: Seq<char>) -> nat
    decreases s.len(),
{
    if s.len() == 0 {
        0
    } else {
        count_of(s.drop_last(), x) + if s.last() == x {
            1nat
        } else {
            0nat
        }
    }
}

/// Each item of the first `k` of `s` that occurs again later in `s`, at its
/// first occurrence, with the number of times it occurs in `s`.
pub open spec fn repeated_upto(s: Seq<Seq<char>>, k: int) -> Seq<(Seq<char>, nat)>
    decreases k,
{
    if k <= 0 {
        Seq::empty()
    } else {
        let rest = repeated_upto(s, k - 1);
        let x = s[k - 1];
        if s.skip(k).contains(x) && !s.take(k - 1).contains(x) {
            rest.push((x, count_of(s, x)))
        } else {
            rest
        }
    }
}

/// Whether some item of `items[lo..hi]` is equal to `x`.
fn contains_text(items: &[&str], lo: usize, hi: usize, x: &str) -> (r: bool)
    requires
        lo <= hi <= items@.len(),
    ensures
        r == views(items@).subrange(lo as int, hi as int).contains(x@),
{
    let mut i = lo;
    while i < hi
        invariant
            lo <= i <= hi <= items@.len(),
            forall|k: int| lo <= k < i ==> items@[k]@ != x@,
        decreases hi - i,
    {
        if compare_strs(items[i], x) == 0 {
            proof {
                assert(views(items@).subrange(lo as int, hi as int)[i - lo] == x@);
            }
            return true;
        }
        i = i + 1;
    }
    proof {
        let v = views(items@).subrange(lo as int, hi as int);
        assert forall|k: int| 0 <= k < v.len() implies v[k] != x@ by {
            assert(v[k] == items@[lo + k]@);
        }
    }
    false
}

/// The number of items of `items` equal to `x`.
fn count_text(items: &[&str], x: &str) -> (r: usize)
    ensures
        r == count_of(views(items@), x@),
{
    let mut c: usize = 0;
    let mut i: usize = 0;
    proof {
        assert(views(items@).take(0) =~= Seq::<Seq<char>>::empty());
    }
    while i < items.len()
        invariant
            i <= items@.len(),
            c <= i,
            c == count_of(views(items@).take(i as int), x@),
        decreases items.len() - i,
    {
        proof {
            assert(views(items@).take(i + 1).drop_last() =~= views(items@).take(i as int));
        }
        if compare_strs(items[i], x) == 0 {
            c = c + 1;
        }
        i = i + 1;
    }
    proof {
        assert(views(items@).take(i as int) =~= views(items@));
    }
    c
}

/// The items of `list` that occur more than once, each at its first
/// occurrence, with the number of times it occurs.
pub fn duplicated_items<'a>(list: &[&'a str]) -> (r: Vec<(&'a str, usize)>)
    ensures
        r@.len() == repeated_upto(views(list@), list@.len() as int).len(),
        forall|k: int|
            0 <= k < r@.len() ==> (#[trigger] r@[k]).0@ == repeated_upto(
                views(list@),
                list@.len() as int,
            )[k].0 && r@[k].1 == repeated_upto(views(list@), list@.len() as int)[k].1,
{
    let ghost v = views(list@);
    let mut ret: Vec<(&'a str, usize)> = Vec::new();
    let n = list.len();
    let mut i: usize = 0;
    while i < n
        invariant
            n == list@.len(),
            v == views(list@),
            i <= n,
            ret@.len() == repeated_upto(v, i as int).len(),
            forall|k: int|
                0 <= k < ret@.len() ==> (#[trigger] ret@[k]).0@ == repeated_upto(v, i as int)[k].0
                    && ret@[k].1 == repeated_upto(v, i as int)[k].1,
        decreases n - i,
    {
        let item = list[i];
        let later = contains_text(list, i + 1, n, item);
        let earlier = contains_text(list, 0, i, item);
        proof {
            assert(v.subrange(i + 1, n as int) =~= v.skip(i + 1));
            assert(v.subrange(0, i as int) =~= v.take(i as int));
            assert(v[i as int] == item@);
        }
        if later && !earlier {
            let count = count_text(list, item);
            ret.push((item, count));
        }
        i = i + 1;
    }
    ret
}

/// Leaving out repeats keeps every item.
proof fn lemma_dedup_contains(s: Seq<Seq<char>>, x: Seq<char>)
    ensures
        dedup(s).contains(x) == s.contains(x),
    decreases s.len(),
{
    if s.len() > 0 {
        let d = s.drop_last();
        let n = s.len() - 1;
        lemma_dedup_contains(d, x);
        assert(s =~= d.push(s[n]));
        assert(s.contains(x) == (d.contains(x) || s[n] == x)) by {
            if s.contains(x) {
                let k = choose|k: int| 0 <= k < s.len() && s[k] == x;
                if k < n {
                    assert(d[k] == x);
                }
            }
            if d.contains(x) {
                let k = choose|k: int| 0 <= k < d.len() && d[k] == x;
                assert(s[k] == x);
            }
            if s[n] == x {
                assert(s.contains(x));
            }
        }
        if s.len() >= 2 && s[s.len() - 2] == s.last() {
            assert(d[n - 1] == s[n]);
            assert(d.contains(s[n]));
        } else {
            let dd = dedup(d);
            assert(dedup(s) == dd.push(s[n]));
            assert(dd.push(s[n]).contains(x) == (dd.contains(x) || s[n] == x)) by {
                if dd.push(s[n]).contains(x) {
                    let k = choose|k: int| 0 <= k < dd.len() + 1 && dd.push(s[n])[k] == x;
                    if k < dd.len() {
                        assert(dd[k] == x);
                    }
                }
                if dd.contains(x) {
                    let k = choose|k: int| 0 <= k < dd.len() && dd[k] == x;
                    assert(dd.push(s[n])[k] == x);
                }
                if s[n] == x {
                    assert(dd.push(s[n])[dd.len() as int] == x);
                }
            }
        }
    }
}

/// Nothing of `s` is absent from `other` exactly when `other` holds all of
/// `s`.
proof fn lemma_absent_empty(s: Seq<Seq<char>>, other: Seq<Seq<char>>)
    ensures
        (absent_from(s, other).len() == 0) == (forall|x: Seq<char>|
            s.contains(x) ==> other.contains(x)),
    decreases s.len(),
{
    if s.len() > 0 {
        let d = s.drop_last();
        lemma_absent_empty(d, other);
        if absent_from(s, other).len() == 0 {
            assert forall|x: Seq<char>| s.contains(x) implies other.contains(x) by {
                let k = choose|k: int| 0 <= k < s.len() && s[k] == x;
                if k < d.len() {
                    assert(d[k] == x);
                }
            }
        }
        if forall|x: Seq<char>| s.contains(x) ==> other.contains(x) {
            assert(s[s.len() - 1] == s.last());
            assert(other.contains(s.last()));
            assert forall|x: Seq<char>| d.contains(x) implies other.contains(x) by {
                let k = choose|k: int| 0 <= k < d.len() && d[k] == x;
                assert(s[k] == x);
            }
        }
    }
}

/// No neighbours of `s` are equal.
pub open spec fn no_equal_neighbours(s: Seq<Seq<char>>) -> bool {
    forall|i: int| 0 <= i < s.len() - 1 ==> #[trigger] s[i] != s[i + 1]
}

proof fn lemma_dup_runs_empty(s: Seq<Seq<char>>)
    ensures
        (dup_runs(s).len() == 0) == no_equal_neighbours(s),
    decreases s.len(),
{
    if s.len() > 0 {
        lemma_tail_run_bounds(s);
        let t = tail_run(s);
        let p = s.take(s.len() - t);
        if t >= 2 {
            assert(s[s.len() - 2] == s.last());
            assert(!no_equal_neighbours(s)) by {
                assert(s[s.len() - 2] == s[(s.len() - 2) + 1]);
            }
        } else {
            assert(p =~= s.drop_last());
            lemma_dup_runs_empty(p);
            if no_equal_neighbours(s) {
                assert forall|i: int| 0 <= i < p.len() - 1 implies #[trigger] p[i] != p[i + 1] by {
                    assert(p[i] == s[i] && p[i + 1] == s[i + 1]);
                }
            }
            if no_equal_neighbours(p) {
                assert forall|i: int| 0 <= i < s.len() - 1 implies #[trigger] s[i] != s[i + 1] by {
                    if i < s.len() - 2 {
                        assert(p[i] == s[i] && p[i + 1] == s[i + 1]);
                    } else {
                        assert(!(s.len() >= 2 && s[s.len() - 2] == s.last()));
                    }
                }
            }
        }
    }
}

/// In a sorted sequence, two equal items have equal neighbours between
/// them.
proof fn lemma_sorted_repeat_neighbours(s: Seq<Seq<char>>, i: int, j: int)
    requires
        sorted_desc(s),
        0 <= i < j < s.len(),
        s[i] == s[j],
    ensures
        s[i] == s[i + 1],
{
    assert(!str_lt(s[i], s[i + 1]));
    if i + 1 < j {
        assert(!str_lt(s[i + 1], s[j]));
    }
    lemma_str_lt_order(s[i], s[i + 1], s[i + 1]);
    lemma_str_lt_order(s[i + 1], s[i], s[i]);
}

proof fn lemma_section_empty(title: Seq<char>, items: Seq<Seq<char>>)
    requires
        title.len() > 0,
    ensures
        (section(title, items).len() == 0) == (items.len() == 0),
{
    if items.len() > 0 {
        let line = title + join(items, ", "@) + "\n"@;
        reveal_strlit("...");
        assert(line.len() > 0);
    }
}

/// `compare_sets` reports nothing exactly when the found items are the
/// expected ones, each found once: every expected item was found, every
/// found item was expected, and no item was found twice.
pub proof fn lemma_report_empty_iff_same_set(e: Seq<Seq<char>>, a: Seq<Seq<char>>)
    requires
        sorted_desc(e),
        sorted_desc(a),
    ensures
        (report(e, a).len() == 0) == ({
            &&& forall|x: Seq<char>| e.contains(x) ==> a.contains(x)
            &&& forall|x: Seq<char>| a.contains(x) ==> e.contains(x)
            &&& forall|i: int, j: int| 0 <= i < j < a.len() ==> a[i] != a[j]
        }),
{
    reveal_strlit("Missing items: ");
    reveal_strlit("Unexpected items: ");
    reveal_strlit("Duplicated items: ");
    let m = absent_from(dedup(e), a);
    let u = absent_from(dedup(a), e);
    let dups = dup_runs(a).map_values(|d: (Seq<char>, nat)| dup_entry(d));
    lemma_section_empty("Missing items: "@, m);
    lemma_section_empty("Unexpected items: "@, u);
    lemma_section_empty("Duplicated items: "@, dups);
    lemma_absent_empty(dedup(e), a);
    lemma_absent_empty(dedup(a), e);
    lemma_dup_runs_empty(a);
    assert((forall|x: Seq<char>| dedup(e).contains(x) ==> a.contains(x)) == (forall|x: Seq<char>|
        e.contains(x) ==> a.contains(x))) by {
        assert forall|x: Seq<char>| true implies dedup(e).contains(x) == e.contains(x) by {
            lemma_dedup_contains(e, x);
        }
    }
    assert((forall|x: Seq<char>| dedup(a).contains(x) ==> e.contains(x)) == (forall|x: Seq<char>|
        a.contains(x) ==> e.contains(x))) by {
        assert forall|x: Seq<char>| true implies dedup(a).contains(x) == a.contains(x) by {
            lemma_dedup_contains(a, x);
        }
    }
    assert(no_equal_neighbours(a) == (forall|i: int, j: int|
        0 <= i < j < a.len() ==> a[i] != a[j])) by {
        if no_equal_neighbours(a) {
            assert forall|i: int, j: int| 0 <= i < j < a.len() implies a[i] != a[j] by {
                if a[i] == a[j] {
                    lemma_sorted_repeat_neighbours(a, i, j);
                }
            }
        }
    }
}

} // verus!
