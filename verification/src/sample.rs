//! Sweep specifications: a single value, an explicit list, or a stepped
//! range, with a deterministic, restartable, finite iteration order.

use vstd::prelude::*;

use crate::errors::Error;
use crate::parse::count_char;
use crate::parse::count_char_exec;
use crate::parse::find_char;
use crate::parse::first_pos;
use crate::parse::lemma_count_char_zero;
use crate::parse::lemma_first_pos;
use crate::quantity::DefaultStep;
use crate::quantity::Quantity;

verus! {

/// The set of values to sweep for one parameter.
///
/// `Range(start, stop, step)` yields `start`, then keeps adding the step
/// (the given one, or the type's default step at `start`) while the result
/// does not exceed `stop`. `List` yields its values in stored order, and
/// `Number` yields its one value once.
#[derive(Debug)]
pub enum SamplePoints<T> {
    /// `start`, `stop`, and an optional step.
    Range(T, T, Option<T>),
    /// Explicit values, in order.
    List(Vec<T>),
    /// A single value.
    Number(T),
}

/// A `SamplePoints` as contracts see it: the list variant as a sequence.
pub enum SamplePointsModel<T> {
    /// `start`, `stop`, and an optional step.
    Range(T, T, Option<T>),
    /// Explicit values, in order.
    List(Seq<T>),
    /// A single value.
    Number(T),
}

/// The step a range uses: the given one, or the type's default at `start`.
pub open spec fn eff_step_of<T: Quantity>(start: T, step: Option<T>) -> T {
    match step {
        Some(st) => st,
        None => T::spec_default_step(start),
    }
}

impl<T: Quantity> SamplePointsModel<T> {
    /// How many values the specification yields.
    pub open spec fn sample_len(self) -> nat {
        match self {
            SamplePointsModel::Range(start, stop, step) => {
                if start.to_math() > stop.to_math() {
                    1nat
                } else {
                    ((stop.to_math() - start.to_math()) / eff_step_of(start, step).to_math()
                        + 1) as nat
                }
            },
            SamplePointsModel::List(vs) => vs.len(),
            SamplePointsModel::Number(_) => 1nat,
        }
    }

    /// The exact sequence of values the specification yields.
    pub open spec fn sample_seq(self) -> Seq<T> {
        match self {
            SamplePointsModel::Range(start, stop, step) => Seq::new(
                self.sample_len(),
                |k: int| start.with_math(start.to_math() + k * eff_step_of(start, step).to_math()),
            ),
            SamplePointsModel::List(vs) => vs,
            SamplePointsModel::Number(x) => seq![x],
        }
    }
}

impl<T: Quantity> SamplePoints<T> {
    /// The specification as contracts see it.
    pub open spec fn model(self) -> SamplePointsModel<T> {
        match self {
            SamplePoints::Range(start, stop, step) => SamplePointsModel::Range(start, stop, step),
            SamplePoints::List(v) => SamplePointsModel::List(v@),
            SamplePoints::Number(x) => SamplePointsModel::Number(x),
        }
    }

    /// Well-formedness: a range's endpoints and effective step share one
    /// representation, and the step moves by at least one unit, so that
    /// iteration is finite.
    pub open spec fn wf(self) -> bool {
        match self {
            SamplePoints::Range(start, stop, step) => {
                &&& start.compatible(stop)
                &&& eff_step_of(start, step).compatible(start)
                &&& eff_step_of(start, step).to_math() >= 1
            },
            _ => true,
        }
    }

    /// How many values the specification yields.
    pub open spec fn sample_len(self) -> nat {
        self.model().sample_len()
    }

    /// The exact sequence of values the specification yields: `start` always
    /// comes first; each later value adds the effective step while the
    /// result does not exceed `stop`.
    pub open spec fn sample_seq(self) -> Seq<T> {
        self.model().sample_seq()
    }

    /// What parsing a range body (the part before any `:`) gives: exactly
    /// one `-`, both endpoints parsable, endpoints and effective step of one
    /// representation, and a step that moves.
    pub open spec fn spec_parse_range(body: Seq<char>, stepo: Option<T>) -> Result<
        SamplePointsModel<T>,
        Error,
    > {
        if count_char(body, '-') == 1 {
            let p = first_pos(body, '-');
            if 0 <= p < body.len() {
                match (T::spec_parse(body.subrange(0, p)), T::spec_parse(
                    body.subrange(p + 1, body.len() as int),
                )) {
                    (Some(start), Some(stop)) => {
                        let est = eff_step_of(start, stepo);
                        if !start.compatible(stop) || !est.compatible(start) {
                            Err(Error::Mismatch)
                        } else if est.to_math() == 0 {
                            Err(Error::SpecFormat)
                        } else {
                            Ok(SamplePointsModel::Range(start, stop, stepo))
                        }
                    },
                    _ => Err(Error::SpecFormat),
                }
            } else {
                Err(Error::SpecFormat)
            }
        } else {
            Err(Error::SpecFormat)
        }
    }

    /// What parsing a comma-separated list gives: every token must parse.
    pub open spec fn spec_parse_list_vals(s: Seq<char>) -> Option<Seq<T>>
        decreases s.len(),
    {
        if count_char(s, ',') == 0 {
            match T::spec_parse(s) {
                Some(v) => Some(seq![v]),
                None => None,
            }
        } else {
            let p = first_pos(s, ',');
            if 0 <= p < s.len() {
                match T::spec_parse(s.subrange(0, p)) {
                    Some(v) => match Self::spec_parse_list_vals(
                        s.subrange(p + 1, s.len() as int),
                    ) {
                        Some(rest) => Some(seq![v] + rest),
                        None => None,
                    },
                    None => None,
                }
            } else {
                None
            }
        }
    }

    /// The sweep grammar: a string with a `-` is a range (with an optional
    /// `:step`), else one with a `,` is a list, else a single value.
    pub open spec fn spec_parse_points(s: Seq<char>) -> Result<SamplePointsModel<T>, Error> {
        if count_char(s, '-') >= 1 {
            if count_char(s, ':') == 0 {
                Self::spec_parse_range(s, None)
            } else if count_char(s, ':') == 1 {
                let p = first_pos(s, ':');
                if 0 <= p < s.len() {
                    match T::spec_parse(s.subrange(p + 1, s.len() as int)) {
                        Some(st) => Self::spec_parse_range(s.subrange(0, p), Some(st)),
                        None => Err(Error::SpecFormat),
                    }
                } else {
                    Err(Error::SpecFormat)
                }
            } else {
                Err(Error::SpecFormat)
            }
        } else if count_char(s, ',') >= 1 {
            match Self::spec_parse_list_vals(s) {
                Some(vs) => Ok(SamplePointsModel::List(vs)),
                None => Err(Error::SpecFormat),
            }
        } else {
            match T::spec_parse(s) {
                Some(v) => Ok(SamplePointsModel::Number(v)),
                None => Err(Error::SpecFormat),
            }
        }
    }

    /// Parse a sweep specification string. On success the result is
    /// well-formed and means exactly what the grammar says; every failure
    /// is the exact error of the grammar.
    pub fn parse(s: &str) -> (r: Result<SamplePoints<T>, Error>)
        ensures
            match Self::spec_parse_points(s@) {
                Ok(m) => r matches Ok(sp) && sp.model() == m && sp.wf(),
                Err(e) => r == Err::<SamplePoints<T>, Error>(e),
            },
    {
        let n = s.unicode_len();
        proof {
            assert(s@.subrange(0, n as int) == s@);
        }
        let dashes = count_char_exec(s, 0, n, '-');
        if dashes >= 1 {
            let colons = count_char_exec(s, 0, n, ':');
            if colons == 0 {
                Self::parse_range_body(s, 0, n, None)
            } else if colons == 1 {
                let p = find_char(s, 0, n, ':');
                proof {
                    lemma_count_char_zero(s@, ':');
                    assert(p < n);
                    lemma_first_pos(s@, ':', p as int);
                }
                let step_tok = s.substring_char(p + 1, n);
                match T::parse_item(step_tok) {
                    Ok(st) => Self::parse_range_body(s, 0, p, Some(st)),
                    Err(e) => Err(e),
                }
            } else {
                Err(Error::SpecFormat)
            }
        } else {
            let commas = count_char_exec(s, 0, n, ',');
            if commas >= 1 {
                match Self::parse_list_rec(s, 0, n) {
                    Ok(vals) => Ok(SamplePoints::List(vals)),
                    Err(e) => Err(e),
                }
            } else {
                match T::parse_item(s) {
                    Ok(v) => Ok(SamplePoints::Number(v)),
                    Err(e) => Err(e),
                }
            }
        }
    }

    /// Parse `start-stop` between `from` and `to`, with an already parsed
    /// optional step.
    #[verifier::rlimit(100)]
    fn parse_range_body(s: &str, from: usize, to: usize, stepo: Option<T>) -> (r: Result<
        SamplePoints<T>,
        Error,
    >)
        requires
            from <= to <= s@.len(),
        ensures
            match Self::spec_parse_range(s@.subrange(from as int, to as int), stepo) {
                Ok(m) => r matches Ok(sp) && sp.model() == m && sp.wf(),
                Err(e) => r == Err::<SamplePoints<T>, Error>(e),
            },
    {
        let ghost body = s@.subrange(from as int, to as int);
        let dashes = count_char_exec(s, from, to, '-');
        if dashes != 1 {
            return Err(Error::SpecFormat);
        }
        let p = find_char(s, from, to, '-');
        proof {
            lemma_count_char_zero(body, '-');
            assert forall|j: int| 0 <= j < to - from implies body[j] == s@[from + j] by {}
            assert(p < to);
            assert forall|j: int| 0 <= j < p - from implies body[j] != '-' by {
                assert(body[j] == s@[from + j]);
            }
            lemma_first_pos(body, '-', p - from);
            assert(body.subrange(0, p - from) == s@.subrange(from as int, p as int));
            assert(body.subrange(p - from + 1, body.len() as int) == s@.subrange(
                p + 1,
                to as int,
            ));
        }
        let start_r = T::parse_item(s.substring_char(from, p));
        let stop_r = T::parse_item(s.substring_char(p + 1, to));
        match (start_r, stop_r) {
            (Ok(start), Ok(stop)) => {
                let est = match stepo {
                    Some(st) => st,
                    None => T::default_step(start),
                };
                proof {
                    assert(est == eff_step_of(start, stepo));
                }
                if !start.is_compatible(stop) || !est.is_compatible(start) {
                    Err(Error::Mismatch)
                } else if est.is_zero() {
                    Err(Error::SpecFormat)
                } else {
                    proof {
                        est.lemma_model(start);
                    }
                    Ok(SamplePoints::Range(start, stop, stepo))
                }
            },
            _ => Err(Error::SpecFormat),
        }
    }

    /// Parse a comma-separated list of tokens, one value per token, from
    /// `cur` to the end of `s`.
    fn parse_list_rec(s: &str, cur: usize, n: usize) -> (r: Result<Vec<T>, Error>)
        requires
            cur <= n == s@.len(),
        ensures
            match Self::spec_parse_list_vals(s@.subrange(cur as int, n as int)) {
                Some(vs) => r matches Ok(v) && v@ == vs,
                None => r == Err::<Vec<T>, Error>(Error::SpecFormat),
            },
        decreases n - cur,
    {
        let ghost suffix = s@.subrange(cur as int, n as int);
        let p = find_char(s, cur, n, ',');
        proof {
            lemma_count_char_zero(suffix, ',');
            assert forall|j: int| 0 <= j < p - cur implies suffix[j] != ',' by {
                assert(suffix[j] == s@[cur + j]);
            }
        }
        if p < n {
            proof {
                assert(suffix[p - cur] == s@[p as int]);
                assert(count_char(suffix, ',') != 0);
                lemma_first_pos(suffix, ',', p - cur);
                assert(suffix.subrange(0, p - cur) == s@.subrange(cur as int, p as int));
                assert(suffix.subrange(p - cur + 1, suffix.len() as int) == s@.subrange(
                    p + 1,
                    n as int,
                ));
            }
            match T::parse_item(s.substring_char(cur, p)) {
                Ok(v) => {
                    match Self::parse_list_rec(s, p + 1, n) {
                        Ok(mut rest) => {
                            let mut out: Vec<T> = Vec::new();
                            out.push(v);
                            let ghost one = out@;
                            let ghost rest_view = rest@;
                            out.append(&mut rest);
                            proof {
                                assert(out@ == one + rest_view);
                                assert((one + rest_view) =~= (seq![v] + rest_view));
                            }
                            Ok(out)
                        },
                        Err(e) => Err(e),
                    }
                },
                Err(_) => Err(Error::SpecFormat),
            }
        } else {
            proof {
                assert(count_char(suffix, ',') == 0);
            }
            match T::parse_item(s.substring_char(cur, n)) {
                Ok(v) => {
                    let mut out: Vec<T> = Vec::new();
                    out.push(v);
                    proof {
                        assert(out@ =~= seq![v]);
                    }
                    Ok(out)
                },
                Err(_) => Err(Error::SpecFormat),
            }
        }
    }

    /// A fresh iterator over the specification's values.
    pub fn iter<'a>(&'a self) -> (r: SamplePointsIterator<'a, T>)
        requires
            self.wf(),
        ensures
            r.wf_iter(),
            r.target() == *self,
            r.pos() == 0,
    {
        SamplePointsIterator { iterable: self, i: 0, prev: None, pos: Ghost(0nat) }
    }

    /// All the specification's values, in iteration order. A fresh call
    /// always rebuilds the identical sequence.
    pub fn points(&self) -> (r: Vec<T>)
        requires
            self.wf(),
        ensures
            r@ == self.sample_seq(),
    {
        let mut out: Vec<T> = Vec::new();
        let mut it = self.iter();
        loop
            invariant
                self.wf(),
                it.wf_iter(),
                it.target() == *self,
                it.pos() <= self.sample_seq().len(),
                out@ == self.sample_seq().take(it.pos() as int),
            decreases self.sample_seq().len() - it.pos(),
        {
            let ghost p = it.pos();
            match it.next() {
                Some(v) => {
                    out.push(v);
                    proof {
                        assert(self.sample_seq().take(p as int + 1) == self.sample_seq().take(
                            p as int,
                        ).push(self.sample_seq()[p as int]));
                    }
                },
                None => {
                    proof {
                        assert(self.sample_seq().take(p as int) == self.sample_seq());
                    }
                    return out;
                },
            }
        }
    }
}

/// A cursor over a `SamplePoints`, yielding its values in order.
pub struct SamplePointsIterator<'a, T: Quantity> {
    pub(crate) iterable: &'a SamplePoints<T>,
    pub(crate) i: usize,
    pub(crate) prev: Option<T>,
    pub(crate) pos: Ghost<nat>,
}

impl<'a, T: Quantity> SamplePointsIterator<'a, T> {
    /// The specification being iterated.
    pub closed spec fn target(self) -> SamplePoints<T> {
        *self.iterable
    }

    /// How many values were yielded so far.
    pub closed spec fn pos(self) -> nat {
        self.pos@
    }

    /// The cursor is consistent with its specification and position.
    pub closed spec fn wf_iter(self) -> bool {
        let sp = *self.iterable;
        &&& sp.wf()
        &&& self.pos@ <= sp.sample_len()
        &&& match sp {
            SamplePoints::Range(start, stop, step) => {
                let s = eff_step_of(start, step).to_math();
                &&& (self.prev is None <==> self.pos@ == 0)
                &&& match self.prev {
                    Some(p) => {
                        &&& self.pos@ >= 1
                        &&& p == start.with_math(start.to_math() + (self.pos@ - 1) * s)
                        &&& (self.pos@ >= 2 ==> start.to_math() + (self.pos@ - 1) * s
                            <= stop.to_math())
                    },
                    None => true,
                }
            },
            SamplePoints::List(_) => self.i == self.pos@,
            SamplePoints::Number(_) => self.i == self.pos@,
        }
    }

    /// Yield the next value: exactly the values of `sample_seq`, in order,
    /// then `None` forever.
    pub fn next(&mut self) -> (r: Option<T>)
        requires
            old(self).wf_iter(),
        ensures
            final(self).wf_iter(),
            final(self).target() == old(self).target(),
            ({
                let sq = old(self).target().sample_seq();
                if old(self).pos() < sq.len() {
                    r == Some(sq[old(self).pos() as int]) && final(self).pos() == old(self).pos()
                        + 1
                } else {
                    r is None && final(self).pos() == old(self).pos()
                }
            }),
    {
        let itr = self.iterable;
        match itr {
            SamplePoints::Range(start0, stop0, step0) => {
                let start = *start0;
                let stop = *stop0;
                let step = *step0;
                let ghost est = eff_step_of(start, step);
                let ghost s = est.to_math();
                let ghost sp = *self.iterable;
                let ghost len = sp.sample_len() as int;
                proof {
                    start.lemma_model(stop);
                    stop.lemma_model(start);
                    est.lemma_model(start);
                    if start.to_math() <= stop.to_math() {
                        lemma_div_nonneg(stop.to_math() - start.to_math(), s);
                    }
                    assert(len >= 1);
                }
                match self.prev {
                    None => {
                        self.prev = Some(start);
                        self.pos = Ghost(1nat);
                        proof {
                            assert(sp.sample_seq()[0] == start.with_math(
                                start.to_math() + 0 * s,
                            ));
                            assert(start.to_math() + 0 * s == start.to_math());
                        }
                        Some(start)
                    },
                    Some(x) => {
                        let ghost k = self.pos@ as int;
                        let ghost m = start.to_math() + (k - 1) * s;
                        proof {
                            assert((k - 1) * s >= 0 && (k - 1) * s + s == k * s) by (
                            nonlinear_arith)
                                requires
                                    k >= 1,
                                    s >= 1,
                            ;
                            if k >= 2 {
                                assert(m <= stop.to_math());
                            }
                            start.lemma_with_math(start, m);
                            // x's magnitude and compatibility.
                            assert(x.to_math() == m);
                            assert(x.compatible(start));
                            x.lemma_model(start);
                            start.lemma_model(est);
                            x.lemma_compatible_trans(start, est);
                        }
                        let st = match step {
                            Some(st0) => st0,
                            None => T::default_step(start),
                        };
                        proof {
                            assert(st == est);
                        }
                        match x.checked_add(st) {
                            Ok(c) => {
                                proof {
                                    x.lemma_with_math(start, m + s);
                                    assert(c == start.with_math(start.to_math() + k * s));
                                    assert(c.to_math() == start.to_math() + k * s);
                                    assert(c.compatible(x));
                                    c.lemma_compatible_trans(x, start);
                                    c.lemma_compatible_trans(start, stop);
                                }
                                match c.le_checked(stop) {
                                    Ok(true) => {
                                        proof {
                                            // start + k*s <= stop, so k < sample_len.
                                            lemma_mul_le_div(
                                                stop.to_math() - start.to_math(),
                                                s,
                                                k,
                                            );
                                            assert(k < len);
                                            assert(sp.sample_seq()[k] == start.with_math(
                                                start.to_math() + k * s,
                                            ));
                                        }
                                        self.prev = Some(c);
                                        self.pos = Ghost((self.pos@ + 1) as nat);
                                        Some(c)
                                    },
                                    Ok(false) => {
                                        proof {
                                            // start + k*s > stop, so everything is yielded.
                                            lemma_mul_le_div(
                                                stop.to_math() - start.to_math(),
                                                s,
                                                k,
                                            );
                                            assert(k >= len);
                                        }
                                        None
                                    },
                                    Err(_) => {
                                        proof {
                                            // The candidate and `stop` share a
                                            // representation, so the comparison
                                            // cannot fail.
                                            assert(false);
                                        }
                                        None
                                    },
                                }
                            },
                            Err(_) => {
                                proof {
                                    // The sum left the machine range, so it
                                    // certainly exceeds `stop`.
                                    assert(start.to_math() + k * s > stop.to_math());
                                    lemma_mul_le_div(stop.to_math() - start.to_math(), s, k);
                                    assert(k >= len);
                                }
                                None
                            },
                        }
                    },
                }
            },
            SamplePoints::List(v) => {
                if self.i >= v.len() {
                    None
                } else {
                    let x = v[self.i];
                    self.i = self.i + 1;
                    self.pos = Ghost((self.pos@ + 1) as nat);
                    Some(x)
                }
            },
            SamplePoints::Number(n) => {
                if self.i > 0 {
                    None
                } else {
                    self.i = 1;
                    self.pos = Ghost(1nat);
                    Some(*n)
                }
            },
        }
    }
}

/// A non-negative number divided by a positive one is non-negative.
pub proof fn lemma_div_nonneg(d: int, s: int)
    requires
        d >= 0,
        s >= 1,
    ensures
        d / s >= 0,
{
    vstd::arithmetic::div_mod::lemma_fundamental_div_mod(d, s);
    vstd::arithmetic::div_mod::lemma_mod_bound(d, s);
    assert(d / s >= 0) by (nonlinear_arith)
        requires
            s >= 1,
            d >= 0,
            d == s * (d / s) + d % s,
            0 <= d % s < s,
    ;
}

/// For a positive step, `k * s <= d` exactly when `k <= d / s`.
proof fn lemma_mul_le_div(d: int, s: int, k: int)
    requires
        s >= 1,
    ensures
        d >= 0 ==> ((k * s <= d) <==> (k <= d / s)),
        d < 0 && k >= 1 ==> k * s > d,
{
    if d >= 0 {
        vstd::arithmetic::div_mod::lemma_fundamental_div_mod(d, s);
        vstd::arithmetic::div_mod::lemma_mod_bound(d, s);
        assert((k * s <= d) <==> (k <= d / s)) by (nonlinear_arith)
            requires
                s >= 1,
                d == s * (d / s) + d % s,
                0 <= d % s < s,
        ;
    } else {
        if k >= 1 {
            assert(k * s >= 1) by (nonlinear_arith)
                requires
                    k >= 1,
                    s >= 1,
            ;
        }
    }
}

/// A parsed list holds at least one value.
pub proof fn lemma_list_vals_nonempty<T: Quantity>(s: Seq<char>)
    ensures
        SamplePoints::<T>::spec_parse_list_vals(s) matches Some(vs) ==> vs.len() >= 1,
    decreases s.len(),
{
    if count_char(s, ',') != 0 {
        let p = first_pos(s, ',');
        if 0 <= p < s.len() {
            lemma_list_vals_nonempty::<T>(s.subrange(p + 1, s.len() as int));
        }
    }
}

/// A parsed range yields at least one value.
pub proof fn lemma_range_nonempty<T: Quantity>(body: Seq<char>, stepo: Option<T>)
    ensures
        SamplePoints::<T>::spec_parse_range(body, stepo) matches Ok(m) ==> m.sample_seq().len()
            >= 1,
{
    match SamplePoints::<T>::spec_parse_range(body, stepo) {
        Ok(m) => {
            match m {
                SamplePointsModel::Range(start, stop, step) => {
                    let est = eff_step_of(start, step);
                    est.lemma_model(start);
                    if start.to_math() <= stop.to_math() {
                        lemma_div_nonneg(stop.to_math() - start.to_math(), est.to_math());
                    }
                },
                _ => {},
            }
        },
        _ => {},
    }
}

/// Whatever shape a sweep string parses to, it yields at least one value.
pub proof fn lemma_parse_nonempty<T: Quantity>(s: Seq<char>)
    ensures
        SamplePoints::<T>::spec_parse_points(s) matches Ok(m) ==> m.sample_seq().len() >= 1,
{
    if count_char(s, '-') >= 1 {
        if count_char(s, ':') == 0 {
            lemma_range_nonempty::<T>(s, None);
        } else if count_char(s, ':') == 1 {
            let p = first_pos(s, ':');
            if 0 <= p < s.len() {
                match T::spec_parse(s.subrange(p + 1, s.len() as int)) {
                    Some(st) => {
                        lemma_range_nonempty::<T>(s.subrange(0, p), Some(st));
                    },
                    None => {},
                }
            }
        }
    } else if count_char(s, ',') >= 1 {
        lemma_list_vals_nonempty::<T>(s);
    }
}

} // verus!
