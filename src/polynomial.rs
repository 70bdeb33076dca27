use crate::number::{abs, is_signed_divisor, Number};
use vstd::prelude::*;

verus! {

/// One monomial, `coefficient * x^degree`.
#[derive(Debug, Clone, Copy)]
pub struct Term {
    pub coefficient: Number,
    pub degree: i32,
}

impl Term {
    /// The term `coefficient * x^degree`.
    pub fn new(coefficient: Number, degree: i32) -> (r: Term)
        ensures
            r == (Term { coefficient, degree }),
    {
        Term { coefficient, degree }
    }

    /// The value of the term at `x`: `x^degree * coefficient`, or `None` when
    /// a step does not fit in 32 bits.
    pub open spec fn value_at(self, x: Number) -> Option<Number> {
        match x.power(self.degree as int) {
            Some(p) => p.product(self.coefficient),
            None => None,
        }
    }

    /// Evaluates the term at `x`.
    pub fn evaluate(&self, x: Number) -> (r: Option<Number>)
        requires
            x.valid(),
            self.coefficient.valid(),
        ensures
            r == self.value_at(x),
    {
        match x.checked_pow(self.degree) {
            Some(t) => {
                proof {
                    Number::lemma_power_closed(x, self.degree as int);
                }
                t.checked_mul(self.coefficient)
            },
            None => None,
        }
    }
}

impl PartialEq for Term {
    /// Same degree and coefficients of equal value.
    fn eq(&self, other: &Term) -> (r: bool) {
        self.degree == other.degree && self.coefficient == other.coefficient
    }
}

impl vstd::std_specs::cmp::PartialEqSpecImpl for Term {
    open spec fn obeys_eq_spec() -> bool {
        true
    }

    open spec fn eq_spec(&self, other: &Term) -> bool {
        self.degree == other.degree && self.coefficient.same_value(other.coefficient)
    }
}

impl Eq for Term {

}

/// The running total of the coefficients of degree `d` in `ts`, added in
/// order; `None` when no term has that degree. The first coefficient is
/// reduced; each later one is added to the total.
pub open spec fn degree_total(ts: Seq<Term>, d: int) -> Option<Number>
    decreases ts.len(),
{
    if ts.len() == 0 {
        None
    } else {
        let t = ts.last();
        let prev = degree_total(ts.drop_last(), d);
        if t.degree == d {
            match prev {
                Some(p) => p.sum(t.coefficient),
                None => Some(
                    Number::canon(
                        t.coefficient.numerator as nat,
                        t.coefficient.denominator as nat,
                        t.coefficient.positive,
                    ),
                ),
            }
        } else {
            prev
        }
    }
}

/// Every coefficient in `ts` has a positive denominator.
pub open spec fn all_valid(ts: Seq<Term>) -> bool {
    forall|i: int| 0 <= i < ts.len() ==> (#[trigger] ts[i]).coefficient.valid()
}

/// Merging the terms of `ts` by degree never leaves 32 bits: each addition
/// to a running total is representable.
pub open spec fn merge_fits(ts: Seq<Term>) -> bool {
    forall|i: int|
        0 <= i < ts.len() ==> match degree_total(#[trigger] ts.take(i), ts[i].degree as int) {
            Some(p) => p.sum(ts[i].coefficient) is Some,
            None => true,
        }
}

/// Degrees strictly decrease along `ts`.
pub open spec fn strictly_descending(ts: Seq<Term>) -> bool {
    forall|i: int, j: int| 0 <= i < j < ts.len() ==> ts[i].degree > ts[j].degree
}

/// The sum of the values of the terms of `ts` at `x`, starting from zero;
/// `None` when a step does not fit in 32 bits.
pub open spec fn value_at(ts: Seq<Term>, x: Number) -> Option<Number>
    decreases ts.len(),
{
    if ts.len() == 0 {
        Some(Number::zero())
    } else {
        match (value_at(ts.drop_last(), x), ts.last().value_at(x)) {
            (Some(acc), Some(v)) => v.sum(acc),
            _ => None,
        }
    }
}

/// A divisor of a numerator within the range of `i32` is itself an `i32`.
proof fn lemma_divisor_fits(n: nat, v: int)
    requires
        n <= i32::MAX,
        is_signed_divisor(n, v),
    ensures
        i32::MIN < v <= i32::MAX,
{
    if n > 0 && abs(v) > n {
        vstd::arithmetic::div_mod::lemma_small_mod(n, abs(v) as nat);
    }
}

/// The coefficient of the degree-0 term of `ts`, or one when there is none.
pub open spec fn constant_coefficient(ts: Seq<Term>) -> Number {
    if exists|k: int| 0 <= k < ts.len() && ts[k].degree == 0 {
        ts[choose|k: int| 0 <= k < ts.len() && ts[k].degree == 0].coefficient
    } else {
        Number::one()
    }
}

/// The coefficient of the first term, the one of highest degree in
/// canonical form; one when that term is constant or there is none.
pub open spec fn leading_coefficient(ts: Seq<Term>) -> Number {
    if ts.len() > 0 && ts[0].degree != 0 {
        ts[0].coefficient
    } else {
        Number::one()
    }
}

/// The product of the denominators of the coefficients of `ts` that are not
/// integers: multiplying any coefficient by it gives an integer.
pub open spec fn clearing_divisor(ts: Seq<Term>) -> nat
    decreases ts.len(),
{
    if ts.len() == 0 {
        1
    } else {
        let rest = clearing_divisor(ts.drop_last());
        if ts.last().coefficient.denominator != 1 {
            (rest * ts.last().coefficient.denominator) as nat
        } else {
            rest
        }
    }
}

/// The numerator of `c * k` in lowest terms, when `c`'s numerator times `k`
/// fits in 32 bits and the result fits in an `i32`.
pub open spec fn scaled_numerator(c: Number, k: nat) -> Option<nat> {
    if c.numerator * k <= u32::MAX {
        let s = Number::canon((c.numerator * k) as nat, c.denominator as nat, c.positive);
        if s.numerator <= i32::MAX {
            Some(s.numerator as nat)
        } else {
            None
        }
    } else {
        None
    }
}

/// Some element of `xs` has the same value as `x`.
pub open spec fn holds_value(xs: Seq<Number>, x: Number) -> bool {
    exists|m: int| 0 <= m < xs.len() && (#[trigger] xs[m]).same_value(x)
}

/// The clearing divisor of a prefix is positive and at most that of the whole.
proof fn lemma_clearing_divisor_prefix(ts: Seq<Term>, i: int)
    requires
        all_valid(ts),
        0 <= i <= ts.len(),
    ensures
        1 <= clearing_divisor(ts.take(i)) <= clearing_divisor(ts),
    decreases ts.len(),
{
    if i == ts.len() {
        assert(ts.take(i) =~= ts);
        if ts.len() > 0 {
            lemma_clearing_divisor_prefix(ts.drop_last(), i - 1);
            assert(ts.drop_last().take(i - 1) =~= ts.drop_last());
            let rest = clearing_divisor(ts.drop_last());
            let den = ts.last().coefficient.denominator;
            assert(ts.last() == ts[ts.len() - 1]);
            assert(den > 0);
            assert(rest * den >= 1) by (nonlinear_arith)
                requires
                    rest >= 1,
                    den >= 1,
            ;
        }
    } else {
        let init = ts.drop_last();
        assert(all_valid(init)) by {
            assert forall|q: int| 0 <= q < init.len() implies (#[trigger] init[q]).coefficient.valid() by {
                assert(init[q] == ts[q]);
            }
        }
        lemma_clearing_divisor_prefix(init, i);
        assert(init.take(i) =~= ts.take(i));
        let rest = clearing_divisor(init);
        let den = ts.last().coefficient.denominator;
        assert(ts.last() == ts[ts.len() - 1]);
        assert(den > 0);
        assert(rest <= rest * den) by (nonlinear_arith)
            requires
                rest >= 1,
                den >= 1,
        ;
    }
}

/// The magnitude of `v`.
fn magnitude(v: i32) -> (r: u32)
    ensures
        r == abs(v as int),
{
    if v < 0 {
        (-(v as i64)) as u32
    } else {
        v as u32
    }
}

/// Whether some element of `xs` has the same value as `x`.
fn holds(xs: &Vec<Number>, x: Number) -> (r: bool)
    ensures
        r == holds_value(xs@, x),
{
    let mut m: usize = 0;
    while m < xs.len()
        invariant
            m <= xs@.len(),
            forall|q: int| 0 <= q < m ==> !(#[trigger] xs@[q]).same_value(x),
        decreases xs@.len() - m,
    {
        if xs[m] == x {
            return true;
        }
        m = m + 1;
    }
    false
}

/// A polynomial in one variable: a sum of terms.
pub struct PolynomialFunction {
    pub terms: Vec<Term>,
}

impl PolynomialFunction {
    /// Canonical form: degrees strictly decrease, and every coefficient is in
    /// lowest terms and not zero.
    pub open spec fn wf(self) -> bool {
        &&& strictly_descending(self.terms@)
        &&& forall|i: int|
            0 <= i < self.terms@.len() ==> {
                &&& (#[trigger] self.terms@[i]).coefficient.wf()
                &&& self.terms@[i].coefficient.numerator != 0
            }
    }

    /// `self` is the canonical form of the raw terms `raw`: one term for each
    /// degree whose total in `raw` is not zero, holding that total.
    pub open spec fn canonical_of(self, raw: Seq<Term>) -> bool {
        &&& self.wf()
        &&& forall|i: int|
            0 <= i < self.terms@.len() ==> degree_total(raw, (#[trigger] self.terms@[i]).degree as int)
                == Some(self.terms@[i].coefficient)
        &&& forall|d: int|
            (#[trigger] degree_total(raw, d) matches Some(c) && c.numerator != 0) ==> exists|i: int|
                0 <= i < self.terms@.len() && self.terms@[i].degree == d
    }

    /// Builds a polynomial from raw terms and brings it to canonical form.
    pub fn new(terms: Vec<Term>) -> (r: PolynomialFunction)
        requires
            all_valid(terms@),
            merge_fits(terms@),
        ensures
            r.canonical_of(terms@),
    {
        let mut out = PolynomialFunction { terms };
        out.simplify();
        out
    }

    /// Like `new`, but returns `None` when a coefficient has a zero
    /// denominator or when merging the terms leaves 32 bits.
    pub fn try_new(terms: Vec<Term>) -> (r: Option<PolynomialFunction>)
        ensures
            r is Some <==> all_valid(terms@) && merge_fits(terms@),
            r matches Some(p) ==> p.canonical_of(terms@),
    {
        let mut i: usize = 0;
        while i < terms.len()
            invariant
                i <= terms@.len(),
                forall|q: int| 0 <= q < i ==> (#[trigger] terms@[q]).coefficient.valid(),
            decreases terms@.len() - i,
        {
            if terms[i].coefficient.denominator == 0 {
                return None;
            }
            i = i + 1;
        }
        match PolynomialFunction::merge(&terms) {
            Some(merged) => Some(PolynomialFunction { terms: merged }),
            None => None,
        }
    }

    /// Merges terms of equal degree by adding their coefficients, drops the
    /// terms whose coefficient is zero, and orders the rest by degree,
    /// highest first.
    pub fn simplify(&mut self)
        requires
            all_valid(old(self).terms@),
            merge_fits(old(self).terms@),
        ensures
            final(self).canonical_of(old(self).terms@),
    {
        let merged = PolynomialFunction::merge(&self.terms);
        self.terms = merged.unwrap();
    }

    /// The canonical form of `terms`, or `None` when merging leaves 32 bits.
    fn merge(terms: &Vec<Term>) -> (r: Option<Vec<Term>>)
        requires
            all_valid(terms@),
        ensures
            r is Some <==> merge_fits(terms@),
            r matches Some(v) ==> (PolynomialFunction { terms: v }).canonical_of(terms@),
    {
        let ghost raw = terms@;
        let mut acc: Vec<Term> = Vec::new();
        let mut i: usize = 0;
        while i < terms.len()
            invariant
                raw == terms@,
                all_valid(raw),
                forall|q: int|
                    0 <= q < i ==> match degree_total(#[trigger] raw.take(q), raw[q].degree as int) {
                        Some(p) => p.sum(raw[q].coefficient) is Some,
                        None => true,
                    },
                0 <= i <= raw.len(),
                strictly_descending(acc@),
                forall|k: int| 0 <= k < acc@.len() ==> (#[trigger] acc@[k]).coefficient.wf(),
                forall|k: int|
                    0 <= k < acc@.len() ==> degree_total(raw.take(i as int), (#[trigger] acc@[k]).degree as int)
                        == Some(acc@[k].coefficient),
                forall|d: int|
                    (#[trigger] degree_total(raw.take(i as int), d)) is Some ==> exists|k: int|
                        0 <= k < acc@.len() && acc@[k].degree == d,
            decreases raw.len() - i,
        {
            let t = terms[i];
            let mut j: usize = 0;
            while j < acc.len() && acc[j].degree > t.degree
                invariant
                    j <= acc@.len(),
                    forall|k: int| 0 <= k < j ==> (#[trigger] acc@[k]).degree > t.degree,
                decreases acc@.len() - j,
            {
                j = j + 1;
            }
            let ghost before = acc@;
            let ghost pre = raw.take(i as int);
            let ghost post = raw.take(i + 1);
            proof {
                assert(post.drop_last() =~= pre);
                assert(post.last() == t);
                assert(t.coefficient.valid());
            }
            if j < acc.len() && acc[j].degree == t.degree {
                let prev = acc[j].coefficient;
                proof {
                    assert(degree_total(pre, t.degree as int) == Some(prev));
                    Number::lemma_arithmetic_closed(prev, t.coefficient);
                }
                let c = match prev.checked_add(t.coefficient) {
                    Some(c) => c,
                    None => {
                        proof {
                            assert(raw[i as int] == t);
                        }
                        return None;
                    },
                };
                acc.set(j, Term { coefficient: c, degree: t.degree });
                proof {
                    assert forall|k: int| 0 <= k < acc@.len() implies degree_total(post, (#[trigger] acc@[k]).degree as int)
                        == Some(acc@[k].coefficient) by {
                        if k != j {
                            assert(acc@[k] == before[k]);
                            assert(before[k].degree != t.degree);
                        }
                    }
                    assert forall|d: int| (#[trigger] degree_total(post, d)) is Some implies exists|k: int|
                        0 <= k < acc@.len() && acc@[k].degree == d by {
                        if d == t.degree {
                            assert(acc@[j as int].degree == d);
                        } else {
                            assert(degree_total(post, d) == degree_total(pre, d));
                            assert(degree_total(pre, d) is Some);
                            let k = choose|k: int| 0 <= k < before.len() && before[k].degree == d;
                            assert(acc@[k].degree == d);
                        }
                    }
                }
            } else {
                let mut c = t.coefficient;
                c.simplify();
                proof {
                    if degree_total(pre, t.degree as int) is Some {
                        let k = choose|k: int| 0 <= k < before.len() && before[k].degree == t.degree;
                        if k > j {
                            assert(before[j as int].degree > before[k].degree);
                        }
                    }
                }
                acc.insert(j, Term { coefficient: c, degree: t.degree });
                proof {
                    assert(acc@ == before.insert(j as int, Term { coefficient: c, degree: t.degree }));
                    assert forall|a: int, b: int| 0 <= a < b < acc@.len() implies acc@[a].degree > acc@[b].degree by {
                        if b < j {
                        } else if a < j && b == j {
                        } else if a < j {
                            assert(acc@[b] == before[b - 1]);
                        } else if a == j {
                            assert(acc@[b] == before[b - 1]);
                            assert(before[j as int].degree <= t.degree);
                            if b - 1 > j {
                                assert(before[j as int].degree > before[b - 1].degree);
                            }
                        } else {
                            assert(acc@[a] == before[a - 1]);
                            assert(acc@[b] == before[b - 1]);
                        }
                    }
                    assert forall|k: int| 0 <= k < acc@.len() implies (#[trigger] acc@[k]).coefficient.wf() by {
                        if k < j {
                        } else if k > j {
                            assert(acc@[k] == before[k - 1]);
                        }
                    }
                    assert forall|k: int| 0 <= k < acc@.len() implies degree_total(post, (#[trigger] acc@[k]).degree as int)
                        == Some(acc@[k].coefficient) by {
                        if k < j {
                            assert(acc@[k] == before[k]);
                        } else if k > j {
                            assert(acc@[k] == before[k - 1]);
                        }
                    }
                    assert forall|d: int| (#[trigger] degree_total(post, d)) is Some implies exists|k: int|
                        0 <= k < acc@.len() && acc@[k].degree == d by {
                        if d == t.degree {
                            assert(acc@[j as int].degree == d);
                        } else {
                            assert(degree_total(post, d) == degree_total(pre, d));
                            assert(degree_total(pre, d) is Some);
                            let k = choose|k: int| 0 <= k < before.len() && before[k].degree == d;
                            if k < j {
                                assert(acc@[k] == before[k]);
                            } else {
                                assert(acc@[k + 1] == before[k]);
                            }
                        }
                    }
                }
            }
            proof {
                assert(raw[i as int] == t);
                assert(match degree_total(raw.take(i as int), raw[i as int].degree as int) {
                    Some(p) => p.sum(raw[i as int].coefficient) is Some,
                    None => true,
                });
            }
            i = i + 1;
        }
        proof {
            assert(raw.take(raw.len() as int) =~= raw);
        }
        let mut out: Vec<Term> = Vec::new();
        let ghost mut idx: Seq<int> = Seq::empty();
        let mut k: usize = 0;
        while k < acc.len()
            invariant
                k <= acc@.len(),
                idx.len() == out@.len(),
                forall|m: int| 0 <= m < idx.len() ==> 0 <= #[trigger] idx[m] < k && out@[m] == acc@[idx[m]],
                forall|a: int, b: int| 0 <= a < b < idx.len() ==> idx[a] < idx[b],
                forall|m: int| 0 <= m < out@.len() ==> (#[trigger] out@[m]).coefficient.numerator != 0,
                forall|q: int|
                    0 <= q < k && (#[trigger] acc@[q]).coefficient.numerator != 0 ==> exists|m: int|
                        0 <= m < idx.len() && idx[m] == q,
            decreases acc@.len() - k,
        {
            if acc[k].coefficient.numerator != 0 {
                out.push(acc[k]);
                proof {
                    let ghost old_idx = idx;
                    idx = idx.push(k as int);
                    assert(idx[idx.len() - 1] == k);
                    assert forall|q: int|
                        0 <= q < k + 1 && (#[trigger] acc@[q]).coefficient.numerator != 0 implies exists|m: int|
                            0 <= m < idx.len() && idx[m] == q by {
                        if q < k {
                            let m = choose|m: int| 0 <= m < old_idx.len() && old_idx[m] == q;
                            assert(idx[m] == q);
                        } else {
                            assert(idx[idx.len() - 1] == q);
                        }
                    }
                }
            }
            k = k + 1;
        }
        proof {
            let fin = out@;
            assert forall|a: int, b: int| 0 <= a < b < fin.len() implies fin[a].degree > fin[b].degree by {
                assert(idx[a] < idx[b]);
            }
            assert forall|m: int| 0 <= m < fin.len() implies {
                &&& (#[trigger] fin[m]).coefficient.wf()
                &&& fin[m].coefficient.numerator != 0
            } by {
                assert(fin[m] == acc@[idx[m]]);
            }
            assert forall|m: int| 0 <= m < fin.len() implies degree_total(raw, (#[trigger] fin[m]).degree as int)
                == Some(fin[m].coefficient) by {
                assert(fin[m] == acc@[idx[m]]);
            }
            assert forall|d: int| (#[trigger] degree_total(raw, d) matches Some(c) && c.numerator != 0)
                implies exists|m: int| 0 <= m < fin.len() && fin[m].degree == d by {
                let q = choose|q: int| 0 <= q < acc@.len() && acc@[q].degree == d;
                assert(acc@[q].coefficient.numerator != 0);
                let m = choose|m: int| 0 <= m < idx.len() && idx[m] == q;
                assert(fin[m].degree == d);
            }
        }
        Some(out)
    }

    /// The two numerators whose divisors make up the candidate roots: those
    /// of the constant and of the leading coefficient, each multiplied by the
    /// clearing divisor. `None` when there are no terms, or when the scaling
    /// leaves 32 bits or the range of `i32`.
    pub open spec fn search_bounds(self) -> Option<(nat, nat)> {
        let ts = self.terms@;
        let k = clearing_divisor(ts);
        if ts.len() == 0 || k > u32::MAX {
            None
        } else {
            match (
                scaled_numerator(constant_coefficient(ts), k),
                scaled_numerator(leading_coefficient(ts), k),
            ) {
                (Some(c), Some(l)) => Some((c, l)),
                _ => None,
            }
        }
    }

    /// The candidate `c / l`, in lowest terms, positive when `c` and `l`
    /// have the same sign.
    pub open spec fn candidate(c: int, l: int) -> Number {
        Number::canon(abs(c) as nat, abs(l) as nat, (c > 0) == (l > 0))
    }

    /// `x` is a candidate root: a divisor of the scaled constant over a
    /// non-zero divisor of the scaled leading coefficient.
    pub open spec fn is_candidate(self, x: Number) -> bool {
        match self.search_bounds() {
            Some((cn, ln)) => exists|c: int, l: int|
                #![trigger PolynomialFunction::candidate(c, l)]
                {
                    &&& is_signed_divisor(cn, c)
                    &&& is_signed_divisor(ln, l)
                    &&& l != 0
                    &&& x == PolynomialFunction::candidate(c, l)
                },
            None => false,
        }
    }

    /// The polynomial evaluates to zero at `x`, exactly and within 32 bits.
    pub open spec fn vanishes_at(self, x: Number) -> bool {
        value_at(self.terms@, x) matches Some(v) && v.numerator == 0
    }

    /// The rational roots found by the rational root theorem: every candidate
    /// at which the polynomial vanishes, once each by value.
    pub fn roots(&self) -> (r: Vec<Number>)
        requires
            self.wf(),
        ensures
            forall|i: int|
                0 <= i < r@.len() ==> self.is_candidate(#[trigger] r@[i]) && self.vanishes_at(r@[i]),
            forall|x: Number| #[trigger]
                self.is_candidate(x) && self.vanishes_at(x) ==> holds_value(r@, x),
            forall|i: int, j: int| 0 <= i < j < r@.len() ==> !r@[i].same_value(r@[j]),
    {
        let ghost ts = self.terms@;
        let len = self.terms.len();
        if len == 0 {
            return Vec::new();
        }
        proof {
            assert(all_valid(ts));
        }
        let mut q: usize = 0;
        while q < len && self.terms[q].degree != 0
            invariant
                q <= len == ts.len(),
                ts == self.terms@,
                forall|p: int| 0 <= p < q ==> (#[trigger] ts[p]).degree != 0,
            decreases len - q,
        {
            q = q + 1;
        }
        let constant = if q < len {
            proof {
                let p0 = choose|k: int| 0 <= k < ts.len() && ts[k].degree == 0;
                if p0 != q {
                    if p0 < q {
                    } else {
                        assert(ts[q as int].degree > ts[p0].degree);
                    }
                }
            }
            self.terms[q].coefficient
        } else {
            Number::from(1u32)
        };
        let leading = if self.terms[0].degree != 0 {
            self.terms[0].coefficient
        } else {
            Number::from(1u32)
        };
        assert(constant == constant_coefficient(ts));
        assert(leading == leading_coefficient(ts));
        let mut k: u64 = 1;
        let mut i: usize = 0;
        while i < len
            invariant
                i <= len == ts.len(),
                ts == self.terms@,
                all_valid(ts),
                k == clearing_divisor(ts.take(i as int)),
                k <= u32::MAX,
            decreases len - i,
        {
            let c = self.terms[i].coefficient;
            proof {
                assert(ts.take(i + 1).drop_last() =~= ts.take(i as int));
                assert(ts.take(i + 1).last().coefficient == c);
            }
            if !c.is_integer() {
                proof {
                    vstd::arithmetic::mul::lemma_mul_upper_bound(k as int, u32::MAX as int, c.denominator as int, u32::MAX as int);
                }
                let next: u64 = k * (c.denominator as u64);
                if next > u32::MAX as u64 {
                    proof {
                        lemma_clearing_divisor_prefix(ts, i + 1);
                    }
                    return Vec::new();
                }
                k = next;
            }
            i = i + 1;
        }
        proof {
            assert(ts.take(len as int) =~= ts);
        }
        let k32 = k as u32;
        proof {
            vstd::arithmetic::mul::lemma_mul_upper_bound(constant.numerator as int, u32::MAX as int, k as int, u32::MAX as int);
            vstd::arithmetic::mul::lemma_mul_upper_bound(leading.numerator as int, u32::MAX as int, k as int, u32::MAX as int);
        }
        if (constant.numerator as u64) * (k as u64) > u32::MAX as u64 || (leading.numerator as u64)
            * (k as u64) > u32::MAX as u64 {
            return Vec::new();
        }
        let cs = constant.mul_int(k32);
        let ls = leading.mul_int(k32);
        if cs.numerator > i32::MAX as u32 || ls.numerator > i32::MAX as u32 {
            return Vec::new();
        }
        let ghost cn = cs.numerator as nat;
        let ghost ln = ls.numerator as nat;
        assert(self.search_bounds() == Some((cn, ln)));
        let cf = cs.factors();
        let lf = ls.factors();
        let mut found: Vec<Number> = Vec::new();
        let mut a: usize = 0;
        while a < cf.len()
            invariant
                self.wf(),
                all_valid(self.terms@),
                self.search_bounds() == Some((cn, ln)),
                a <= cf@.len(),
                forall|v: i32| cf@.contains(v) <==> is_signed_divisor(cn, v as int),
                forall|v: i32| lf@.contains(v) <==> is_signed_divisor(ln, v as int),
                forall|m: int|
                    0 <= m < found@.len() ==> self.is_candidate(#[trigger] found@[m]) && self.vanishes_at(
                        found@[m],
                    ),
                forall|m1: int, m2: int| 0 <= m1 < m2 < found@.len() ==> !found@[m1].same_value(found@[m2]),
                forall|a2: int, b2: int|
                    0 <= a2 < a && 0 <= b2 < lf@.len() && lf@[b2] != 0 && self.vanishes_at(
                        #[trigger] PolynomialFunction::candidate(cf@[a2] as int, lf@[b2] as int),
                    ) ==> holds_value(found@, PolynomialFunction::candidate(cf@[a2] as int, lf@[b2] as int)),
            decreases cf@.len() - a,
        {
            let mut b: usize = 0;
            while b < lf.len()
                invariant
                    self.wf(),
                    all_valid(self.terms@),
                    self.search_bounds() == Some((cn, ln)),
                    a < cf@.len(),
                    b <= lf@.len(),
                    forall|v: i32| cf@.contains(v) <==> is_signed_divisor(cn, v as int),
                    forall|v: i32| lf@.contains(v) <==> is_signed_divisor(ln, v as int),
                    forall|m: int|
                        0 <= m < found@.len() ==> self.is_candidate(#[trigger] found@[m]) && self.vanishes_at(
                            found@[m],
                        ),
                    forall|m1: int, m2: int| 0 <= m1 < m2 < found@.len() ==> !found@[m1].same_value(found@[m2]),
                    forall|a2: int, b2: int|
                        0 <= a2 <= a && 0 <= b2 < lf@.len() && (a2 < a || b2 < b) && lf@[b2] != 0
                            && self.vanishes_at(
                            #[trigger] PolynomialFunction::candidate(cf@[a2] as int, lf@[b2] as int),
                        ) ==> holds_value(found@, PolynomialFunction::candidate(cf@[a2] as int, lf@[b2] as int)),
                decreases lf@.len() - b,
            {
                let c = cf[a];
                let l = lf[b];
                if l != 0 {
                    let x = Number::new(magnitude(c), magnitude(l), (c > 0) == (l > 0));
                    proof {
                        assert(x == PolynomialFunction::candidate(c as int, l as int));
                    }
                    let value = self.evaluate(x);
                    if let Some(v) = value {
                        if v.numerator == 0 && !holds(&found, x) {
                            let ghost old_found = found@;
                            found.push(x);
                            proof {
                                assert(cf@.contains(c)) by {
                                    assert(cf@[a as int] == c);
                                }
                                assert(lf@.contains(l)) by {
                                    assert(lf@[b as int] == l);
                                }
                                assert(is_signed_divisor(cn, c as int) && is_signed_divisor(ln, l as int) && l != 0
                                    && x == PolynomialFunction::candidate(c as int, l as int));
                                assert(self.is_candidate(x));
                                assert(found@[found@.len() - 1] == x);
                                assert forall|y: Number| holds_value(old_found, y) implies holds_value(found@, y) by {
                                    let m = choose|m: int| 0 <= m < old_found.len() && (#[trigger] old_found[m]).same_value(y);
                                    assert(found@[m] == old_found[m]);
                                }
                                assert(found@[found@.len() - 1].same_value(x));
                                assert forall|m1: int, m2: int| 0 <= m1 < m2 < found@.len() implies !found@[m1].same_value(found@[m2]) by {
                                    if m2 == found@.len() - 1 {
                                        assert(found@[m1] == old_found[m1]);
                                        if found@[m1].same_value(found@[m2]) {
                                            assert(holds_value(old_found, x));
                                        }
                                    } else {
                                        assert(found@[m1] == old_found[m1]);
                                        assert(found@[m2] == old_found[m2]);
                                    }
                                }
                            }
                        }
                    }
                }
                b = b + 1;
            }
            a = a + 1;
        }
        proof {
            assert forall|x: Number| #[trigger]
                self.is_candidate(x) && self.vanishes_at(x) implies holds_value(found@, x) by {
                let (c, l) = choose|c: int, l: int|
                    #![trigger PolynomialFunction::candidate(c, l)]
                    {
                        &&& is_signed_divisor(cn, c)
                        &&& is_signed_divisor(ln, l)
                        &&& l != 0
                        &&& x == PolynomialFunction::candidate(c, l)
                    };
                lemma_divisor_fits(cn, c);
                lemma_divisor_fits(ln, l);
                assert(cf@.contains(c as i32));
                assert(lf@.contains(l as i32));
                let a2 = choose|a2: int| 0 <= a2 < cf@.len() && cf@[a2] == c as i32;
                let b2 = choose|b2: int| 0 <= b2 < lf@.len() && lf@[b2] == l as i32;
                assert(PolynomialFunction::candidate(cf@[a2] as int, lf@[b2] as int) == x);
            }
        }
        found
    }

    /// The exact value of the polynomial at `x`: the sum of the values of its
    /// terms, or `None` when a step does not fit in 32 bits.
    pub fn evaluate(&self, x: Number) -> (r: Option<Number>)
        requires
            x.valid(),
            all_valid(self.terms@),
        ensures
            r == value_at(self.terms@, x),
    {
        let mut acc: Option<Number> = Some(Number::from(0u32));
        let mut i: usize = 0;
        while i < self.terms.len()
            invariant
                x.valid(),
                all_valid(self.terms@),
                0 <= i <= self.terms@.len(),
                acc == value_at(self.terms@.take(i as int), x),
                acc matches Some(a) ==> a.valid(),
            decreases self.terms@.len() - i,
        {
            let t = self.terms[i];
            proof {
                assert(self.terms@.take(i + 1).drop_last() =~= self.terms@.take(i as int));
                assert(self.terms@.take(i + 1).last() == t);
                assert(t.coefficient.valid());
            }
            let v = t.evaluate(x);
            acc = match (acc, v) {
                (Some(a), Some(tv)) => {
                    proof {
                        let p = x.power(t.degree as int).unwrap();
                        Number::lemma_power_closed(x, t.degree as int);
                        Number::lemma_arithmetic_closed(p, t.coefficient);
                        Number::lemma_arithmetic_closed(tv, a);
                    }
                    tv.checked_add(a)
                },
                _ => None,
            };
            i = i + 1;
        }
        proof {
            assert(self.terms@.take(self.terms@.len() as int) =~= self.terms@);
        }
        acc
    }
}

} // verus!
