//! The settings of a search, and what a judge of expressions returns.
use vstd::prelude::*;

use crate::expression::Expression;
use crate::number::Number;
use crate::revar::{Revar, revar_ok, revar_spec};
use crate::text::{chars_of, string_from_chars};

verus! {

/// The settings of a search for expressions: how many workers, how often
/// they report, which lengths, which constants, and how the interface
/// shows the search.
pub struct SearchConfig {
    pub description: Option<String>,
    pub threads: usize,
    pub report_every: u128,
    pub min_length: usize,
    pub max_length: usize,
    pub constant_cap: u128,
    pub debug_banner_enabled: bool,
    pub var_names: Option<Vec<char>>,
    pub last_total_count: Option<u128>,
}

impl SearchConfig {
    /// The default settings: one worker that reports every 2^20
    /// expressions, every length from 1 on, constants up to 155, the debug
    /// banner shown, default variable names.
    pub fn new() -> (r: Self)
        ensures
            r.description is None,
            r.threads == 1,
            r.report_every == 0x10_0000,
            r.min_length == 1,
            r.max_length == usize::MAX,
            r.constant_cap == 156,
            r.debug_banner_enabled,
            r.var_names is None,
            r.last_total_count is None,
    {
        let report_every: u128 = 1u128 << 20u32;
        assert(report_every == 0x10_0000) by (bit_vector)
            requires
                report_every == 1u128 << 20u32,
        ;
        SearchConfig {
            description: None,
            threads: 1,
            report_every,
            min_length: 1,
            max_length: usize::MAX,
            constant_cap: 156,
            debug_banner_enabled: true,
            var_names: None,
            last_total_count: None,
        }
    }

    /// Show this description of the search in the interface.
    pub fn description(self, description: &str) -> (r: Self)
        ensures
            r.description matches Some(d) && d@ == description@,
            r.threads == self.threads,
            r.report_every == self.report_every,
            r.min_length == self.min_length,
            r.max_length == self.max_length,
            r.constant_cap == self.constant_cap,
            r.debug_banner_enabled == self.debug_banner_enabled,
            r.var_names == self.var_names,
            r.last_total_count == self.last_total_count,
    {
        let d = string_from_chars(&chars_of(description));
        SearchConfig { description: Some(d), ..self }
    }

    /// Use this many worker threads.
    pub fn threads(self, threads: usize) -> (r: Self)
        ensures
            r == (SearchConfig { threads, ..self }),
    {
        SearchConfig { threads, ..self }
    }

    /// Have each worker report after every `report_every` expressions.
    pub fn report_every(self, report_every: u128) -> (r: Self)
        ensures
            r == (SearchConfig { report_every, ..self }),
    {
        SearchConfig { report_every, ..self }
    }

    /// Skip the expressions shorter than `min_length`.
    pub fn min_len(self, min_length: usize) -> (r: Self)
        ensures
            r == (SearchConfig { min_length, ..self }),
    {
        SearchConfig { min_length, ..self }
    }

    /// Stop after the expressions of length `max_length`.
    pub fn max_len(self, max_length: usize) -> (r: Self)
        ensures
            r == (SearchConfig { max_length, ..self }),
    {
        SearchConfig { max_length, ..self }
    }

    /// Use the constants up to `max_constant` (the writers store at most
    /// 155).
    pub fn max_constant(self, max_constant: u128) -> (r: Self)
        requires
            max_constant < u128::MAX,
        ensures
            r == (SearchConfig { constant_cap: (max_constant + 1) as u128, ..self }),
    {
        SearchConfig { constant_cap: max_constant + 1, ..self }
    }

    /// Use no constants at all.
    pub fn no_constants(self) -> (r: Self)
        ensures
            r == (SearchConfig { constant_cap: 0, ..self }),
    {
        SearchConfig { constant_cap: 0, ..self }
    }

    /// Do not show the banner that warns of a debug build.
    pub fn no_banner(self) -> (r: Self)
        ensures
            r == (SearchConfig { debug_banner_enabled: false, ..self }),
    {
        SearchConfig { debug_banner_enabled: false, ..self }
    }

    /// Show the variables under these names (`a` takes the first).
    pub fn revar(self, var_names: &str) -> (r: Self)
        ensures
            r.var_names matches Some(v) && v@ == var_names@,
            r.description == self.description,
            r.threads == self.threads,
            r.report_every == self.report_every,
            r.min_length == self.min_length,
            r.max_length == self.max_length,
            r.constant_cap == self.constant_cap,
            r.debug_banner_enabled == self.debug_banner_enabled,
            r.last_total_count == self.last_total_count,
    {
        SearchConfig { var_names: Some(chars_of(var_names)), ..self }
    }
}

/// `string` with its variables renamed when custom names are given.
pub fn optional_revar(string: &str, custom_names: Option<&[char]>) -> (r: String)
    requires
        custom_names matches Some(names) ==> revar_ok(string@, names@),
    ensures
        r@ == match custom_names {
            Some(names) => revar_spec(string@, names@),
            None => string@,
        },
{
    match custom_names {
        Some(names) => string.revar(names),
        None => string_from_chars(&chars_of(string)),
    }
}

/// What a judge returns for an expression: whether it accepts it, and what
/// a solution holds once accepted.
///
/// - `bool`: `true` accepts, and the solution is the expression itself.
/// - `Option<T>`: `Some(t)` accepts, and the solution holds the expression
///   and `t`.
/// - `Vec<T>`: a non-empty vector accepts, and the solution holds the
///   expression and the vector.
pub trait Verdict<N: Number, const C: usize>: Sized {
    /// What a solution holds.
    type Wrapper;

    /// The verdict accepts its expression.
    spec fn accepts(&self) -> bool;

    /// Whether the verdict accepts its expression.
    fn is_accept(&self) -> (r: bool)
        ensures
            r == self.accepts(),
    ;

    /// The solution made of an accepted expression.
    fn wrap(self, expr: Expression<N, C>) -> (r: Self::Wrapper)
        requires
            self.accepts(),
    ;
}

/// An accepted expression with what its judge passed along.
#[non_exhaustive]
pub struct Solution<N: Number, const C: usize, T> {
    pub expr: Expression<N, C>,
    pub data: T,
}

impl<N: Number, const C: usize> Verdict<N, C> for bool {
    type Wrapper = Expression<N, C>;

    open spec fn accepts(&self) -> bool {
        *self
    }

    fn is_accept(&self) -> (r: bool) {
        *self
    }

    fn wrap(self, expr: Expression<N, C>) -> (r: Expression<N, C>)
        ensures
            r == expr,
    {
        expr
    }
}

impl<N: Number, const C: usize, T> Verdict<N, C> for Option<T> {
    type Wrapper = Solution<N, C, T>;

    open spec fn accepts(&self) -> bool {
        self is Some
    }

    fn is_accept(&self) -> (r: bool) {
        self.is_some()
    }

    fn wrap(self, expr: Expression<N, C>) -> (r: Solution<N, C, T>)
        ensures
            r.expr == expr,
            r.data == self->0,
    {
        Solution { expr, data: self.unwrap() }
    }
}

impl<N: Number, const C: usize, T> Verdict<N, C> for Vec<T> {
    type Wrapper = Solution<N, C, Vec<T>>;

    open spec fn accepts(&self) -> bool {
        self@.len() > 0
    }

    fn is_accept(&self) -> (r: bool) {
        self.len() > 0
    }

    fn wrap(self, expr: Expression<N, C>) -> (r: Solution<N, C, Vec<T>>)
        ensures
            r.expr == expr,
            r.data == self,
    {
        Solution { expr, data: self }
    }
}

/// A `bool` verdict accepts exactly when it is `true`, an `Option` exactly
/// when it holds a value, and a `Vec` exactly when it is not empty: for
/// every verdict of these kinds, `is_accept` answers by these rules.
pub proof fn lemma_verdicts_accept<N: Number, const C: usize, T>(b: bool, o: Option<T>, v: Vec<T>)
    ensures
        <bool as Verdict<N, C>>::accepts(&b) == (b == true),
        <Option<T> as Verdict<N, C>>::accepts(&o) == (o != None::<T>),
        <Vec<T> as Verdict<N, C>>::accepts(&v) == (v@ != Seq::<T>::empty()),
{
    if v@.len() == 0 {
        assert(v@ =~= Seq::<T>::empty());
    }
}

} // verus!
