//! Renaming the variables of rendered expressions.
use vstd::prelude::*;

use crate::text::{chars_of, string_from_chars};

verus! {

/// Whether `c` is one of the default variable names `a` to `z`.
pub open spec fn is_default_name(c: char) -> bool {
    'a' <= c && c <= 'z'
}

/// The position of the default variable name `c` (`a` is 0).
pub open spec fn default_index(c: char) -> int {
    c as int - 97
}

/// The default variable name at position `i`.
pub open spec fn default_name(i: int) -> char {
    (i + 97) as char
}

/// The first position of `c` in `names`, or -1.
pub open spec fn position_of(names: Seq<char>, c: char) -> int
    decreases names.len(),
{
    if names.len() == 0 {
        -1
    } else if names[0] == c {
        0
    } else {
        let p = position_of(names.drop_first(), c);
        if p < 0 {
            -1
        } else {
            p + 1
        }
    }
}

/// The renamed character: a default name becomes the custom name at its
/// position.
pub open spec fn revar_char(c: char, names: Seq<char>) -> char {
    if is_default_name(c) {
        names[default_index(c)]
    } else {
        c
    }
}

/// The un-renamed character: a custom name becomes the default name at its
/// (first) position.
pub open spec fn unvar_char(c: char, names: Seq<char>) -> char {
    if position_of(names, c) >= 0 {
        default_name(position_of(names, c))
    } else {
        c
    }
}

/// `s` with every default name replaced by its custom name.
pub open spec fn revar_spec(s: Seq<char>, names: Seq<char>) -> Seq<char> {
    Seq::new(s.len(), |i: int| revar_char(s[i], names))
}

/// `s` with every custom name replaced by its default name.
pub open spec fn unvar_spec(s: Seq<char>, names: Seq<char>) -> Seq<char> {
    Seq::new(s.len(), |i: int| unvar_char(s[i], names))
}

/// Every default name in `s` has a custom name.
pub open spec fn revar_ok(s: Seq<char>, names: Seq<char>) -> bool {
    forall|i: int| 0 <= i < s.len() && is_default_name(#[trigger] s[i]) ==> default_index(s[i]) < names.len()
}

/// Every custom name in `s` stands at one of the first 26 positions of
/// `names`, so that it has a default name.
pub open spec fn unvar_ok(s: Seq<char>, names: Seq<char>) -> bool {
    forall|i: int| 0 <= i < s.len() ==> #[trigger] position_of(names, s[i]) < 26
}

/// Trait implemented on the `&str` type to imbue it with the `.revar()` and
/// `.unvar()` methods.
pub trait Revar: Sized {
    /// The characters of the text.
    spec fn text(self) -> Seq<char>;

    /// Rename the variables in a string from their default names ('a', 'b',
    /// 'c', etc) to any custom set of names: `"(b+a)/c*a"` with the names
    /// `['j', 'i', 'k']` becomes `"(i+j)/k*j"`.
    fn revar(self, new_names: &[char]) -> (r: String)
        requires
            revar_ok(self.text(), new_names@),
        ensures
            r@ == revar_spec(self.text(), new_names@),
    ;

    /// Un-name the variables in a string from a provided custom set of names
    /// back to their default names ('a', 'b', 'c', etc): `"(i+j)/k*j"` with
    /// the names `['j', 'i', 'k']` becomes `"(b+a)/c*a"`.
    fn unvar(self, old_names: &[char]) -> (r: String)
        requires
            unvar_ok(self.text(), old_names@),
        ensures
            r@ == unvar_spec(self.text(), old_names@),
    ;
}

/// The first position of `c` in `names`, if any.
fn find_position(names: &[char], c: char) -> (r: Option<usize>)
    ensures
        r matches Some(p) ==> p as int == position_of(names@, c),
        r is None ==> position_of(names@, c) == -1,
{
    let mut j: usize = 0;
    while j < names.len()
        invariant
            0 <= j <= names@.len(),
            forall|t: int| 0 <= t < j ==> names@[t] != c,
        decreases names@.len() - j,
    {
        if names[j] == c {
            proof {
                lemma_position_first(names@, c, j as int);
            }
            return Some(j);
        }
        j = j + 1;
    }
    proof {
        lemma_position_absent(names@, c);
    }
    None
}

proof fn lemma_position_first(names: Seq<char>, c: char, j: int)
    requires
        0 <= j < names.len(),
        names[j] == c,
        forall|t: int| 0 <= t < j ==> names[t] != c,
    ensures
        position_of(names, c) == j,
    decreases j,
{
    if j > 0 {
        let rest = names.drop_first();
        lemma_position_first(rest, c, j - 1);
    }
}

proof fn lemma_position_absent(names: Seq<char>, c: char)
    requires
        forall|t: int| 0 <= t < names.len() ==> names[t] != c,
    ensures
        position_of(names, c) == -1,
    decreases names.len(),
{
    if names.len() > 0 {
        lemma_position_absent(names.drop_first(), c);
    }
}

/// `position_of` names a position holding `c`, the first one.
pub proof fn lemma_position_of(names: Seq<char>, c: char)
    ensures
        -1 <= position_of(names, c) < names.len(),
        position_of(names, c) >= 0 ==> names[position_of(names, c)] == c,
        forall|t: int| 0 <= t < position_of(names, c) ==> names[t] != c,
        position_of(names, c) == -1 ==> forall|t: int| 0 <= t < names.len() ==> names[t] != c,
    decreases names.len(),
{
    if names.len() > 0 {
        lemma_position_of(names.drop_first(), c);
        assert forall|t: int| 0 <= t < names.len() && position_of(names, c) == -1 implies names[t] != c by {
            if t > 0 {
                assert(names[t] == names.drop_first()[t - 1]);
            }
        }
        assert forall|t: int| 0 <= t < position_of(names, c) implies names[t] != c by {
            if t > 0 {
                assert(names[t] == names.drop_first()[t - 1]);
            }
        }
    }
}

impl Revar for &str {
    open spec fn text(self) -> Seq<char> {
        self@
    }

    fn revar(self, new_names: &[char]) -> (r: String) {
        let chars = chars_of(self);
        let mut out: Vec<char> = Vec::new();
        let mut i: usize = 0;
        while i < chars.len()
            invariant
                chars@ == self@,
                revar_ok(self@, new_names@),
                0 <= i <= chars@.len(),
                out@ == revar_spec(self@, new_names@).take(i as int),
            decreases chars@.len() - i,
        {
            let c = chars[i];
            let d = if 'a' <= c && c <= 'z' {
                new_names[((c as u32) - 97) as usize]
            } else {
                c
            };
            out.push(d);
            assert(out@ =~= revar_spec(self@, new_names@).take(i + 1));
            i = i + 1;
        }
        assert(out@ =~= revar_spec(self@, new_names@));
        string_from_chars(&out)
    }

    fn unvar(self, old_names: &[char]) -> (r: String) {
        let chars = chars_of(self);
        let mut out: Vec<char> = Vec::new();
        let mut i: usize = 0;
        while i < chars.len()
            invariant
                chars@ == self@,
                unvar_ok(self@, old_names@),
                0 <= i <= chars@.len(),
                out@ == unvar_spec(self@, old_names@).take(i as int),
            decreases chars@.len() - i,
        {
            let c = chars[i];
            let d = match find_position(old_names, c) {
                Some(index) => {
                    assert(position_of(old_names@, self@[i as int]) < 26);
                    (((index as u32) + 97) as u8) as char
                },
                None => c,
            };
            out.push(d);
            assert(out@ =~= unvar_spec(self@, old_names@).take(i + 1));
            i = i + 1;
        }
        assert(out@ =~= unvar_spec(self@, old_names@));
        string_from_chars(&out)
    }
}

/// The names are distinct.
pub open spec fn distinct_names(names: Seq<char>) -> bool {
    forall|i: int, j: int| 0 <= i < j < names.len() ==> names[i] != names[j]
}

/// Renaming and then un-naming gives the text back, when the custom names
/// are distinct, every default name in the text has a custom name, and no
/// other character of the text is one of the custom names.
pub proof fn lemma_unvar_revar(s: Seq<char>, names: Seq<char>)
    requires
        distinct_names(names),
        revar_ok(s, names),
        forall|i: int| 0 <= i < s.len() && !is_default_name(s[i]) ==> position_of(names, s[i]) == -1,
    ensures
        unvar_ok(revar_spec(s, names), names),
        unvar_spec(revar_spec(s, names), names) == s,
{
    let r = revar_spec(s, names);
    assert forall|i: int| 0 <= i < r.len() implies #[trigger] position_of(names, r[i]) < 26 && unvar_char(r[i], names) == s[i] by {
        lemma_position_of(names, r[i]);
        if is_default_name(s[i]) {
            let k = default_index(s[i]);
            assert(r[i] == names[k]);
            lemma_position_first(names, r[i], k);
        }
    }
    assert(unvar_spec(r, names) =~= s);
}

/// Un-naming and then renaming gives the text back, when the custom names
/// are distinct, there are at most 26 of them, and every default name in the
/// text is one of the custom names.
pub proof fn lemma_revar_unvar(s: Seq<char>, names: Seq<char>)
    requires
        distinct_names(names),
        names.len() <= 26,
        forall|i: int| 0 <= i < s.len() && is_default_name(s[i]) ==> position_of(names, s[i]) >= 0,
    ensures
        unvar_ok(s, names),
        revar_ok(unvar_spec(s, names), names),
        revar_spec(unvar_spec(s, names), names) == s,
{
    let u = unvar_spec(s, names);
    assert forall|i: int| 0 <= i < s.len() implies #[trigger] position_of(names, s[i]) < 26 by {
        lemma_position_of(names, s[i]);
    }
    assert forall|i: int| 0 <= i < u.len() implies (is_default_name(#[trigger] u[i]) ==> default_index(u[i]) < names.len()) && revar_char(u[i], names) == s[i] by {
        lemma_position_of(names, s[i]);
        let p = position_of(names, s[i]);
        if p >= 0 {
            assert(u[i] == default_name(p));
            assert(default_index(default_name(p)) == p);
        }
    }
    assert(revar_spec(u, names) =~= s);
}

} // verus!
