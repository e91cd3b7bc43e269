use vstd::prelude::*;
use vstd::arithmetic::div_mod::{
    lemma_fundamental_div_mod, lemma_mod_multiples_basic, lemma_div_pos_is_pos,
    lemma_div_nonincreasing, lemma_div_is_ordered_by_denominator,
};

verus! {

/// An error surfaced by the core: a malformed or incomplete expression, or an
/// arithmetic failure of the exact evaluator. Every error is a value; the
/// core never aborts.
#[derive(Debug)]
pub enum ParserError {
    SyntaxError(String),
    MathError(String),
}

/// Whether `e` is a math error carrying exactly the message `m`.
pub open spec fn is_math_error(e: ParserError, m: Seq<char>) -> bool {
    e matches ParserError::MathError(s) && s@ == m
}

/// Whether `e` is a syntax error carrying exactly the message `m`.
pub open spec fn is_syntax_error(e: ParserError, m: Seq<char>) -> bool {
    e matches ParserError::SyntaxError(s) && s@ == m
}

/// An exactly represented rational number `num / den`. Values produced by
/// the evaluator always have a nonzero denominator; it is not reduced to
/// lowest terms.
#[derive(Debug, Clone, Copy, PartialEq, Eq, Structural)]
pub struct Rational {
    pub num: i128,
    pub den: i128,
}

/// Mathematical image of a rational: numerator and denominator as unbounded
/// integers.
pub struct Rat {
    pub num: int,
    pub den: int,
}

impl View for Rational {
    type V = Rat;

    open spec fn view(&self) -> Rat {
        Rat { num: self.num as int, den: self.den as int }
    }
}

impl Rational {
    /// Whether this rational equals the integer `v`, exactly.
    pub fn equals_int(&self, v: i128) -> (r: bool)
        requires
            self.den != 0,
        ensures
            r == (self@.num == v as int * self@.den),
    {
        match v.checked_mul(self.den) {
            Some(p) => self.num == p,
            None => {
                proof {
                    lemma_cancel_nonzero(v as int, self@.num, self@.den);
                }
                false
            },
        }
    }
}

/// If `a * d` does not fit the machine word but `n` does, then `n != a * d`.
proof fn lemma_cancel_nonzero(a: int, n: int, d: int)
    requires
        d != 0,
        i128::MIN <= n <= i128::MAX,
        a * d > i128::MAX || a * d < i128::MIN,
    ensures
        n != a * d,
{
}

/// One node of the abstract syntax tree: a tagged, exclusively owned tree
/// built bottom-up by the parser and walked once by the evaluator. There is
/// no sharing and no mutation after construction.
#[derive(Debug)]
pub enum ParseNode {
    Binary(char, Box<ParseNode>, Box<ParseNode>),
    Unary(char, Box<ParseNode>),
    Number(Rational),
    Null,
}

impl ParseNode {
    /// Every number literal in the tree has a nonzero denominator.
    pub open spec fn wf(&self) -> bool
        decreases self,
    {
        match *self {
            ParseNode::Binary(_, l, r) => l.wf() && r.wf(),
            ParseNode::Unary(_, x) => x.wf(),
            ParseNode::Number(v) => v.den != 0,
            ParseNode::Null => true,
        }
    }
}

/// What one evaluation step yields: an exact value, or the reason none
/// exists. `TooLarge` marks a value or exponent that no longer fits the
/// machine word — a machine limit, not a property of the expression.
pub enum EvalOutcome {
    Value(Rat),
    DivideByZero,
    NonIntegerExponent,
    TooLarge,
}

/// Whether `x` fits the machine word the evaluator computes with.
pub open spec fn fits(x: int) -> bool {
    i128::MIN <= x <= i128::MAX
}

/// Exact rational addition, watching the machine bounds of each product.
pub open spec fn rat_add(a: Rat, b: Rat) -> EvalOutcome {
    let n1 = a.num * b.den;
    let n2 = b.num * a.den;
    let d = a.den * b.den;
    if fits(n1) && fits(n2) && fits(n1 + n2) && fits(d) {
        EvalOutcome::Value(Rat { num: n1 + n2, den: d })
    } else {
        EvalOutcome::TooLarge
    }
}

/// Exact rational subtraction.
pub open spec fn rat_sub(a: Rat, b: Rat) -> EvalOutcome {
    let n1 = a.num * b.den;
    let n2 = b.num * a.den;
    let d = a.den * b.den;
    if fits(n1) && fits(n2) && fits(n1 - n2) && fits(d) {
        EvalOutcome::Value(Rat { num: n1 - n2, den: d })
    } else {
        EvalOutcome::TooLarge
    }
}

/// Exact rational multiplication.
pub open spec fn rat_mul(a: Rat, b: Rat) -> EvalOutcome {
    let n = a.num * b.num;
    let d = a.den * b.den;
    if fits(n) && fits(d) {
        EvalOutcome::Value(Rat { num: n, den: d })
    } else {
        EvalOutcome::TooLarge
    }
}

/// Exact rational division: multiplication by the flipped divisor, refused
/// when the divisor is zero.
pub open spec fn rat_div(a: Rat, b: Rat) -> EvalOutcome {
    if b.num == 0 {
        EvalOutcome::DivideByZero
    } else {
        let n = a.num * b.den;
        let d = a.den * b.num;
        if fits(n) && fits(d) {
            EvalOutcome::Value(Rat { num: n, den: d })
        } else {
            EvalOutcome::TooLarge
        }
    }
}

/// Exact negation.
pub open spec fn rat_neg(a: Rat) -> EvalOutcome {
    if fits(-a.num) {
        EvalOutcome::Value(Rat { num: -a.num, den: a.den })
    } else {
        EvalOutcome::TooLarge
    }
}

/// Whether the rational `b` is a whole number: some integer times its
/// denominator gives its numerator.
pub open spec fn rat_is_int(b: Rat) -> bool {
    exists|e: int| b.num == #[trigger] (e * b.den)
}

/// The whole value of `b`; meaningful only when `rat_is_int(b)` holds and
/// `b.den != 0`, which make the value unique.
pub open spec fn rat_int_value(b: Rat) -> int {
    choose|e: int| b.num == #[trigger] (e * b.den)
}

/// `a` raised to the natural power `k` by repeated exact multiplication.
pub open spec fn rat_pow(a: Rat, k: nat) -> EvalOutcome
    decreases k,
{
    if k == 0 {
        EvalOutcome::Value(Rat { num: 1, den: 1 })
    } else {
        match rat_pow(a, (k - 1) as nat) {
            EvalOutcome::Value(v) => rat_mul(v, a),
            o => o,
        }
    }
}

/// Exact exponentiation `a ^ b`. The exponent must be a whole number whose
/// magnitude fits the machine word; a negative exponent flips the base,
/// which must then be nonzero.
pub open spec fn rat_pow_apply(a: Rat, b: Rat) -> EvalOutcome {
    if !rat_is_int(b) {
        EvalOutcome::NonIntegerExponent
    } else {
        let e = rat_int_value(b);
        if e > i128::MAX as int || e < -(i128::MAX as int) {
            EvalOutcome::TooLarge
        } else if e >= 0 {
            rat_pow(a, e as nat)
        } else if a.num == 0 {
            EvalOutcome::DivideByZero
        } else {
            rat_pow(Rat { num: a.den, den: a.num }, (-e) as nat)
        }
    }
}

/// Whether `op` is a binary operator the evaluator knows.
pub open spec fn spec_known_binary(op: char) -> bool {
    op == '+' || op == '-' || op == '*' || op == '/' || op == '^'
}

/// The outcome of one known binary operation on exact values.
pub open spec fn rat_apply(op: char, a: Rat, b: Rat) -> EvalOutcome {
    if op == '+' {
        rat_add(a, b)
    } else if op == '-' {
        rat_sub(a, b)
    } else if op == '*' {
        rat_mul(a, b)
    } else if op == '/' {
        rat_div(a, b)
    } else {
        rat_pow_apply(a, b)
    }
}

/// The exact value of a tree, or the reason it has none.
///
/// Mirroring the evaluator's dispatch: an unknown binary or unary operator
/// yields zero without looking at its operands, and an empty node yields
/// zero.
pub open spec fn spec_eval(n: ParseNode) -> EvalOutcome
    decreases n,
{
    match n {
        ParseNode::Number(v) => EvalOutcome::Value(v@),
        ParseNode::Unary(op, x) => if op == '-' {
            match spec_eval(*x) {
                EvalOutcome::Value(v) => rat_neg(v),
                o => o,
            }
        } else {
            EvalOutcome::Value(Rat { num: 0, den: 1 })
        },
        ParseNode::Binary(op, l, r) => if !spec_known_binary(op) {
            EvalOutcome::Value(Rat { num: 0, den: 1 })
        } else {
            match spec_eval(*l) {
                EvalOutcome::Value(a) => match spec_eval(*r) {
                    EvalOutcome::Value(b) => rat_apply(op, a, b),
                    o => o,
                },
                o => o,
            }
        },
        ParseNode::Null => EvalOutcome::Value(Rat { num: 0, den: 1 }),
    }
}

/// The message the evaluator reports for each failed outcome.
pub open spec fn math_error_message(o: EvalOutcome) -> Seq<char> {
    match o {
        EvalOutcome::DivideByZero => "Division By Zero"@,
        EvalOutcome::NonIntegerExponent => "Non-Integer Exponent"@,
        _ => "Arithmetic Overflow"@,
    }
}

/// The evaluator's contract for a subcomputation whose spec outcome is `o`.
pub open spec fn eval_result_matches(r: Result<Rational, ParserError>, o: EvalOutcome) -> bool {
    match r {
        Ok(v) => o == EvalOutcome::Value(v@) && v.den != 0,
        Err(e) => !(o is Value) && is_math_error(e, math_error_message(o)),
    }
}

fn overflow_error() -> (e: ParserError)
    ensures
        is_math_error(e, math_error_message(EvalOutcome::TooLarge)),
{
    ParserError::MathError(String::from_str("Arithmetic Overflow"))
}

/// Exact addition of machine rationals, mirroring `rat_add`.
fn apply_add(a: Rational, b: Rational) -> (r: Result<Rational, ParserError>)
    requires
        a.den != 0,
        b.den != 0,
    ensures
        eval_result_matches(r, rat_add(a@, b@)),
{
    proof {
        lemma_nonzero_product(a.den as int, b.den as int);
    }
    match (a.num.checked_mul(b.den), b.num.checked_mul(a.den), a.den.checked_mul(b.den)) {
        (Some(n1), Some(n2), Some(d)) => match n1.checked_add(n2) {
            Some(n) => Ok(Rational { num: n, den: d }),
            None => Err(overflow_error()),
        },
        _ => Err(overflow_error()),
    }
}

/// Exact subtraction, mirroring `rat_sub`.
fn apply_sub(a: Rational, b: Rational) -> (r: Result<Rational, ParserError>)
    requires
        a.den != 0,
        b.den != 0,
    ensures
        eval_result_matches(r, rat_sub(a@, b@)),
{
    proof {
        lemma_nonzero_product(a.den as int, b.den as int);
    }
    match (a.num.checked_mul(b.den), b.num.checked_mul(a.den), a.den.checked_mul(b.den)) {
        (Some(n1), Some(n2), Some(d)) => match n1.checked_sub(n2) {
            Some(n) => Ok(Rational { num: n, den: d }),
            None => Err(overflow_error()),
        },
        _ => Err(overflow_error()),
    }
}

/// Exact multiplication, mirroring `rat_mul`.
fn apply_mul(a: Rational, b: Rational) -> (r: Result<Rational, ParserError>)
    requires
        a.den != 0,
        b.den != 0,
    ensures
        eval_result_matches(r, rat_mul(a@, b@)),
{
    proof {
        lemma_nonzero_product(a.den as int, b.den as int);
    }
    match (a.num.checked_mul(b.num), a.den.checked_mul(b.den)) {
        (Some(n), Some(d)) => Ok(Rational { num: n, den: d }),
        _ => Err(overflow_error()),
    }
}

/// Exact division, mirroring `rat_div`.
fn apply_div(a: Rational, b: Rational) -> (r: Result<Rational, ParserError>)
    requires
        a.den != 0,
        b.den != 0,
    ensures
        eval_result_matches(r, rat_div(a@, b@)),
{
    if b.num == 0 {
        Err(ParserError::MathError(String::from_str("Division By Zero")))
    } else {
        proof {
            lemma_nonzero_product(a.den as int, b.num as int);
        }
        match (a.num.checked_mul(b.den), a.den.checked_mul(b.num)) {
            (Some(n), Some(d)) => Ok(Rational { num: n, den: d }),
            _ => Err(overflow_error()),
        }
    }
}

/// The product of two nonzero integers is nonzero.
proof fn lemma_nonzero_product(x: int, y: int)
    requires
        x != 0,
        y != 0,
    ensures
        x * y != 0,
{
    assert(x * y != 0) by (nonlinear_arith)
        requires
            x != 0,
            y != 0,
    ;
}

/// A failed power stays failed as the exponent grows.
proof fn lemma_rat_pow_error_stays(a: Rat, k1: nat, k2: nat)
    requires
        k1 <= k2,
        !(rat_pow(a, k1) is Value),
    ensures
        !(rat_pow(a, k2) is Value),
        rat_pow(a, k2) == rat_pow(a, k1),
    decreases k2 - k1,
{
    if k2 > k1 {
        lemma_rat_pow_error_stays(a, k1, (k2 - 1) as nat);
    }
}

/// `base` raised to the `k`-th power by repeated checked multiplication,
/// mirroring `rat_pow`.
fn pow_rational(base: Rational, k: u128) -> (r: Result<Rational, ParserError>)
    requires
        base.den != 0,
    ensures
        eval_result_matches(r, rat_pow(base@, k as nat)),
{
    let mut acc = Rational { num: 1, den: 1 };
    let mut i: u128 = 0;
    while i < k
        invariant
            base.den != 0,
            i <= k,
            rat_pow(base@, i as nat) == EvalOutcome::Value(acc@),
            acc.den != 0,
        decreases k - i,
    {
        match apply_mul(acc, base) {
            Ok(v) => {
                acc = v;
            },
            Err(e) => {
                proof {
                    lemma_rat_pow_error_stays(base@, (i + 1) as nat, k as nat);
                }
                return Err(e);
            },
        }
        i = i + 1;
    }
    Ok(acc)
}

/// If some integer `e` gives `num == e * den`, that integer is unique and is
/// the whole value of the rational.
proof fn lemma_int_value_unique(b: Rat, e: int)
    requires
        b.den != 0,
        b.num == e * b.den,
    ensures
        rat_is_int(b),
        rat_int_value(b) == e,
{
    assert(rat_is_int(b));
    let e2 = rat_int_value(b);
    assert(b.num == e2 * b.den);
    assert(e2 == e) by (nonlinear_arith)
        requires
            b.den != 0,
            e2 * b.den == e * b.den,
    ;
}

/// Exactness of the machine remainder and quotient with signs split out:
/// with `p = |x|` and `q = |d|`, the remainder of `p / q` is zero exactly
/// when `x / d` is a whole number, and the sign-adjusted quotient is then
/// that whole value, bounded by `p`.
proof fn lemma_whole_division(x: int, d: int)
    requires
        d != 0,
    ensures
        ({
            let p = if x >= 0 { x } else { -x };
            let q = if d > 0 { d } else { -d };
            let o = if x == 0 { 0int }
                else if x > 0 && d > 0 { x / d }
                else if x < 0 && d < 0 { (x * -1) / (d * -1) }
                else if x < 0 { ((x * -1) / d) * -1 }
                else { (x / (d * -1)) * -1 };
            &&& (p % q == 0 <==> rat_is_int((Rat { num: x, den: d })))
            &&& (p % q == 0 ==> rat_int_value((Rat { num: x, den: d })) == o && -p <= o <= p)
        }),
{
    let p = if x >= 0 { x } else { -x };
    let q = if d > 0 { d } else { -d };
    let b = Rat { num: x, den: d };
    if p % q == 0 {
        lemma_fundamental_div_mod(p, q);
        let m = p / q;
        lemma_div_pos_is_pos(p, q);
        lemma_div_nonincreasing(p, q);
        assert(p == q * m);
        let e = if (x >= 0) == (d > 0) { m } else { -m };
        assert(x == e * d) by (nonlinear_arith)
            requires
                p == q * m,
                p == (if x >= 0 { x } else { -x }),
                q == (if d > 0 { d } else { -d }),
                e == (if (x >= 0) == (d > 0) { m } else { -m }),
                d != 0,
        ;
        lemma_int_value_unique(b, e);
        let o = if x == 0 { 0int }
            else if x > 0 && d > 0 { x / d }
            else if x < 0 && d < 0 { (x * -1) / (d * -1) }
            else if x < 0 { ((x * -1) / d) * -1 }
            else { (x / (d * -1)) * -1 };
        if x == 0 {
            assert(0int == 0int * d) by (nonlinear_arith);
            lemma_int_value_unique(b, 0);
        } else {
            assert(o == e);
        }
        assert(0 <= m <= p);
    }
    if rat_is_int(b) {
        let e = choose|e: int| b.num == #[trigger] (e * b.den);
        let f = if e >= 0 { e } else { -e };
        assert(p == f * q) by (nonlinear_arith)
            requires
                x == e * d,
                p == (if x >= 0 { x } else { -x }),
                q == (if d > 0 { d } else { -d }),
                f == (if e >= 0 { e } else { -e }),
                d != 0,
        ;
        lemma_mod_multiples_basic(f, q);
    }
}

impl ParseNode {
    /// The exact value of this tree, or the first arithmetic failure met
    /// while walking it: operands are evaluated left before right.
    pub fn evaluate(&self) -> (r: Result<Rational, ParserError>)
        requires
            self.wf(),
        ensures
            eval_result_matches(r, spec_eval(*self)),
        decreases self,
    {
        match self {
            ParseNode::Number(v) => Ok(*v),
            ParseNode::Null => Ok(Rational { num: 0, den: 1 }),
            ParseNode::Unary(op, x) => {
                if *op == '-' {
                    match x.evaluate() {
                        Ok(v) => match 0i128.checked_sub(v.num) {
                            Some(n) => Ok(Rational { num: n, den: v.den }),
                            None => Err(overflow_error()),
                        },
                        Err(e) => Err(e),
                    }
                } else {
                    Ok(Rational { num: 0, den: 1 })
                }
            },
            ParseNode::Binary(op, l, r) => {
                let op = *op;
                if !is_known_binary(op) {
                    return Ok(Rational { num: 0, den: 1 });
                }
                let a = match l.evaluate() {
                    Ok(a) => a,
                    Err(e) => {
                        return Err(e);
                    },
                };
                let b = match r.evaluate() {
                    Ok(b) => b,
                    Err(e) => {
                        return Err(e);
                    },
                };
                if op == '+' {
                    apply_add(a, b)
                } else if op == '-' {
                    apply_sub(a, b)
                } else if op == '*' {
                    apply_mul(a, b)
                } else if op == '/' {
                    apply_div(a, b)
                } else {
                    apply_pow(a, b)
                }
            },
        }
    }
}

/// Whether `op` is a binary operator the evaluator knows.
fn is_known_binary(op: char) -> (r: bool)
    ensures
        r == spec_known_binary(op),
{
    op == '+' || op == '-' || op == '*' || op == '/' || op == '^'
}

/// Exact exponentiation, mirroring `rat_pow_apply`: the machine remainder
/// and quotient decide whether the exponent is whole and in range.
fn apply_pow(a: Rational, b: Rational) -> (r: Result<Rational, ParserError>)
    requires
        a.den != 0,
        b.den != 0,
    ensures
        eval_result_matches(r, rat_pow_apply(a@, b@)),
{
    proof {
        lemma_whole_division(b.num as int, b.den as int);
    }
    match b.num.checked_rem(b.den) {
        None => {
            // Only i128::MIN / -1 has no machine remainder: the exponent is
            // 2^127, beyond the machine range.
            proof {
                assert(b@.num == (-(i128::MIN as int)) * b@.den);
                lemma_int_value_unique(b@, -(i128::MIN as int));
            }
            Err(overflow_error())
        },
        Some(rem) => {
            if rem != 0 {
                Err(ParserError::MathError(String::from_str("Non-Integer Exponent")))
            } else {
                match b.num.checked_div(b.den) {
                    None => Err(overflow_error()),
                    Some(e) => {
                        if e >= 0 {
                            pow_rational(a, e as u128)
                        } else if e == i128::MIN {
                            Err(overflow_error())
                        } else if a.num == 0 {
                            Err(ParserError::MathError(String::from_str("Division By Zero")))
                        } else {
                            pow_rational(Rational { num: a.den, den: a.num }, (-e) as u128)
                        }
                    },
                }
            }
        },
    }
}


/// The mathematical value of a tree over unbounded rationals — the same
/// arithmetic as `spec_eval` with the machine bounds erased. Division by
/// zero, a fractional exponent, and a negative power of zero have no value.
pub open spec fn math_eval(n: ParseNode) -> Option<Rat>
    decreases n,
{
    match n {
        ParseNode::Number(v) => Some(v@),
        ParseNode::Unary(op, x) => if op == '-' {
            match math_eval(*x) {
                Some(v) => Some(Rat { num: -v.num, den: v.den }),
                None => None,
            }
        } else {
            Some(Rat { num: 0, den: 1 })
        },
        ParseNode::Binary(op, l, r) => if !spec_known_binary(op) {
            Some(Rat { num: 0, den: 1 })
        } else {
            match math_eval(*l) {
                Some(a) => match math_eval(*r) {
                    Some(b) => math_apply(op, a, b),
                    None => None,
                },
                None => None,
            }
        },
        ParseNode::Null => Some(Rat { num: 0, den: 1 }),
    }
}

/// One known binary operation over unbounded rationals.
pub open spec fn math_apply(op: char, a: Rat, b: Rat) -> Option<Rat> {
    if op == '+' {
        Some(Rat { num: a.num * b.den + b.num * a.den, den: a.den * b.den })
    } else if op == '-' {
        Some(Rat { num: a.num * b.den - b.num * a.den, den: a.den * b.den })
    } else if op == '*' {
        Some(Rat { num: a.num * b.num, den: a.den * b.den })
    } else if op == '/' {
        if b.num == 0 {
            None
        } else {
            Some(Rat { num: a.num * b.den, den: a.den * b.num })
        }
    } else {
        if !rat_is_int(b) {
            None
        } else {
            let e = rat_int_value(b);
            if e >= 0 {
                Some(math_pow(a, e as nat))
            } else if a.num == 0 {
                None
            } else {
                Some(math_pow(Rat { num: a.den, den: a.num }, (-e) as nat))
            }
        }
    }
}

/// `a` to the `k`-th power over unbounded rationals.
pub open spec fn math_pow(a: Rat, k: nat) -> Rat
    decreases k,
{
    if k == 0 {
        Rat { num: 1, den: 1 }
    } else {
        let v = math_pow(a, (k - 1) as nat);
        Rat { num: v.num * a.num, den: v.den * a.den }
    }
}

/// A machine power that yields a value yields the mathematical one.
proof fn lemma_pow_exact(a: Rat, k: nat)
    ensures
        rat_pow(a, k) matches EvalOutcome::Value(v) ==> math_pow(a, k) == v,
    decreases k,
{
    if k > 0 {
        lemma_pow_exact(a, (k - 1) as nat);
    }
}

/// When the machine evaluator yields a value, that value is exactly the
/// mathematical rational of the tree: the machine bounds only ever cut a
/// computation short, never bend its result.
pub proof fn lemma_eval_exact(n: ParseNode)
    ensures
        spec_eval(n) matches EvalOutcome::Value(v) ==> math_eval(n) == Some(v),
    decreases n,
{
    match n {
        ParseNode::Number(_) => {},
        ParseNode::Null => {},
        ParseNode::Unary(_, x) => {
            lemma_eval_exact(*x);
        },
        ParseNode::Binary(op, l, r) => {
            lemma_eval_exact(*l);
            lemma_eval_exact(*r);
            if spec_known_binary(op) && spec_eval(*l) is Value && spec_eval(*r) is Value {
                let a = spec_eval(*l)->Value_0;
                let b = spec_eval(*r)->Value_0;
                if op == '^' && rat_is_int(b) {
                    let e = rat_int_value(b);
                    if -(i128::MAX as int) <= e <= i128::MAX as int {
                        if e >= 0 {
                            lemma_pow_exact(a, e as nat);
                        } else if a.num != 0 {
                            lemma_pow_exact(Rat { num: a.den, den: a.num }, (-e) as nat);
                        }
                    }
                }
            }
        },
    }
}

} // verus!
