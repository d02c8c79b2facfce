use vstd::prelude::*;

verus! {

/// An arithmetic transformation of one worry value.
#[derive(Debug)]
pub enum Expression {
    Old,
    Number(u64),
    Multiply(Box<Expression>, Box<Expression>),
    Add(Box<Expression>, Box<Expression>),
}

impl Expression {
    /// The value of the expression over mathematical integers, with `old == x`.
    pub open spec fn value(self, x: int) -> int
        decreases self,
    {
        match self {
            Expression::Old => x,
            Expression::Number(n) => n as int,
            Expression::Multiply(l, r) => l.value(x) * r.value(x),
            Expression::Add(l, r) => l.value(x) + r.value(x),
        }
    }

    /// Every intermediate value of the expression at `old == x` fits in `u64`.
    pub open spec fn fits(self, x: int) -> bool
        decreases self,
    {
        match self {
            Expression::Old => true,
            Expression::Number(_) => true,
            Expression::Multiply(l, r) => l.fits(x) && r.fits(x) && self.value(x) <= u64::MAX,
            Expression::Add(l, r) => l.fits(x) && r.fits(x) && self.value(x) <= u64::MAX,
        }
    }

    /// The value of an expression at a non-negative input is non-negative.
    pub proof fn lemma_value_nonneg(self, x: int)
        requires
            x >= 0,
        ensures
            self.value(x) >= 0,
        decreases self,
    {
        match self {
            Expression::Old => {},
            Expression::Number(_) => {},
            Expression::Multiply(l, r) => {
                l.lemma_value_nonneg(x);
                r.lemma_value_nonneg(x);
                assert(l.value(x) * r.value(x) >= 0) by (nonlinear_arith)
                    requires
                        l.value(x) >= 0,
                        r.value(x) >= 0,
                ;
            },
            Expression::Add(l, r) => {
                l.lemma_value_nonneg(x);
                r.lemma_value_nonneg(x);
            },
        }
    }

    /// A fitting expression has a value within `u64`.
    pub proof fn lemma_fits_bound(self, x: int)
        requires
            0 <= x <= u64::MAX,
            self.fits(x),
        ensures
            0 <= self.value(x) <= u64::MAX,
    {
        self.lemma_value_nonneg(x);
    }

    /// Evaluates the expression on `initial`; every intermediate value must fit in `u64`.
    pub fn eval(&self, initial: u64) -> (r: u64)
        requires
            self.fits(initial as int),
        ensures
            r == self.value(initial as int),
        decreases self,
    {
        match self {
            Expression::Old => initial,
            Expression::Number(n) => *n,
            Expression::Multiply(left, right) => {
                let a = left.eval(initial);
                let b = right.eval(initial);
                a * b
            },
            Expression::Add(left, right) => {
                let a = left.eval(initial);
                let b = right.eval(initial);
                a + b
            },
        }
    }

    /// Evaluates the expression on `initial`, or `None` where some intermediate value
    /// does not fit in `u64`.
    pub fn checked_eval(&self, initial: u64) -> (r: Option<u64>)
        ensures
            match r {
                Some(v) => self.fits(initial as int) && v == self.value(initial as int),
                None => !self.fits(initial as int),
            },
        decreases self,
    {
        match self {
            Expression::Old => Some(initial),
            Expression::Number(n) => Some(*n),
            Expression::Multiply(left, right) => match (
                left.checked_eval(initial),
                right.checked_eval(initial),
            ) {
                (Some(a), Some(b)) => a.checked_mul(b),
                _ => None,
            },
            Expression::Add(left, right) => match (
                left.checked_eval(initial),
                right.checked_eval(initial),
            ) {
                (Some(a), Some(b)) => a.checked_add(b),
                _ => None,
            },
        }
    }

    /// Reducing the input modulo `m` does not change the value modulo `m`: the
    /// expression only adds and multiplies.
    pub proof fn lemma_value_mod(self, x: int, m: int)
        requires
            m > 0,
        ensures
            self.value(x % m) % m == self.value(x) % m,
        decreases self,
    {
        match self {
            Expression::Old => {
                vstd::arithmetic::div_mod::lemma_mod_twice(x, m);
            },
            Expression::Number(_) => {},
            Expression::Multiply(l, r) => {
                l.lemma_value_mod(x, m);
                r.lemma_value_mod(x, m);
                vstd::arithmetic::div_mod::lemma_mul_mod_noop(l.value(x % m), r.value(x % m), m);
                vstd::arithmetic::div_mod::lemma_mul_mod_noop(l.value(x), r.value(x), m);
            },
            Expression::Add(l, r) => {
                l.lemma_value_mod(x, m);
                r.lemma_value_mod(x, m);
                vstd::arithmetic::div_mod::lemma_add_mod_noop(l.value(x % m), r.value(x % m), m);
                vstd::arithmetic::div_mod::lemma_add_mod_noop(l.value(x), r.value(x), m);
            },
        }
    }
}

} // verus!
