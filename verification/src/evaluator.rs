//! Tree-walking evaluation of a syntax tree against a variable environment.
//!
//! Operands are evaluated left to right; the first failure is propagated at
//! once, no further subexpression is evaluated, and the environment is
//! returned as it stood at the failure point. Division is integer division
//! truncated toward zero; dividing by zero is an error. An intermediate value
//! that does not fit a signed 32-bit integer is an overflow error rather than
//! a silently wrapped result. An assignment stores the value of its
//! right-hand side and yields that value.

use vstd::prelude::*;
use vstd::string::StringExecFns;

use crate::env::Env;
use crate::parser::ParseError;
use crate::parser::ParseErrorModel;
use crate::parser::ParseTree;
use crate::parser::SumOp;
use crate::parser::ProdOp;
use crate::parser::TreeModel;
use crate::parser::tree_model;

verus! {

/// Why an evaluation failed.
#[derive(PartialEq, Debug, Clone, Copy)]
pub enum EvalError {
    /// A variable was read that no assignment has bound.
    UndefinedVariable,
    /// The right operand of a division was zero.
    DivisionByZero,
    /// An intermediate value fell outside the signed 32-bit range.
    Overflow,
}

/// Why a line yielded no value: its parse failed, or its evaluation did.
#[derive(PartialEq, Debug)]
pub enum Error {
    Parse(ParseError),
    Eval(EvalError),
}

/// Mathematical model of a line error.
pub enum ErrorModel {
    Parse(ParseErrorModel),
    Eval(EvalError),
}

impl DeepView for Error {
    type V = ErrorModel;

    open spec fn deep_view(&self) -> ErrorModel {
        match self {
            Error::Parse(e) => ErrorModel::Parse(e.deep_view()),
            Error::Eval(e) => ErrorModel::Eval(*e),
        }
    }
}

/// The text of each error: one human-readable line.
pub open spec fn message_of(e: ErrorModel) -> Seq<char> {
    match e {
        ErrorModel::Parse(p) => match p {
            ParseErrorModel::NothingToParse => "Nothing to parse"@,
            ParseErrorModel::UnexpectedEnd => "Unexpected end of input"@,
            ParseErrorModel::InvalidUnary => "Invalid unary operator"@,
            ParseErrorModel::MissingRParen => "Missing right parenthesis"@,
            ParseErrorModel::AssignTarget => "Only variables can be assigned to"@,
            ParseErrorModel::ErrorToken(text) => "Parse error on token: "@ + text,
        },
        ErrorModel::Eval(v) => match v {
            EvalError::UndefinedVariable => "Undefined variable"@,
            EvalError::DivisionByZero => "Division by zero"@,
            EvalError::Overflow => "Arithmetic overflow"@,
        },
    }
}

impl Error {
    /// The human-readable message for this error, for the session driver to
    /// print.
    pub fn message(&self) -> (r: String)
        ensures
            r@ == message_of(self.deep_view()),
    {
        match self {
            Error::Parse(p) => match p {
                ParseError::NothingToParse => String::from_str("Nothing to parse"),
                ParseError::UnexpectedEnd => String::from_str("Unexpected end of input"),
                ParseError::InvalidUnary => String::from_str("Invalid unary operator"),
                ParseError::MissingRParen => String::from_str("Missing right parenthesis"),
                ParseError::AssignTarget => String::from_str("Only variables can be assigned to"),
                ParseError::ErrorToken(text) => {
                    let mut s = String::from_str("Parse error on token: ");
                    s.append(text.as_str());
                    s
                },
            },
            Error::Eval(v) => match v {
                EvalError::UndefinedVariable => String::from_str("Undefined variable"),
                EvalError::DivisionByZero => String::from_str("Division by zero"),
                EvalError::Overflow => String::from_str("Arithmetic overflow"),
            },
        }
    }
}

/// The model of a line result.
pub open spec fn line_result_model(r: Result<i32, Error>) -> Result<i32, ErrorModel> {
    match r {
        Ok(v) => Ok(v),
        Err(e) => Err(e.deep_view()),
    }
}

/// Integer division truncated toward zero: the nonnegative quotient of the
/// magnitudes, negated when the signs of the operands differ.
pub open spec fn trunc_div(x: int, d: int) -> int
    recommends
        d != 0,
{
    if x == 0 {
        0
    } else if x > 0 && d > 0 {
        x / d
    } else if x < 0 && d < 0 {
        (x * -1) / (d * -1)
    } else if x < 0 {
        ((x * -1) / d) * -1
    } else {
        (x / (d * -1)) * -1
    }
}

/// What evaluating a tree against an environment yields: the value or the
/// first error, and the environment as of the end or the failure point.
pub open spec fn spec_eval(t: TreeModel, env: Map<Seq<char>, i32>) -> (
    Result<i32, EvalError>,
    Map<Seq<char>, i32>,
)
    decreases t,
{
    match t {
        TreeModel::Num(n) => (Ok(n), env),
        TreeModel::Var(name) => {
            if env.contains_key(name) {
                (Ok(env[name]), env)
            } else {
                (Err(EvalError::UndefinedVariable), env)
            }
        },
        TreeModel::Sum(op, l, r) => {
            let (lr, env1) = spec_eval(*l, env);
            match lr {
                Err(e) => (Err(e), env1),
                Ok(x) => {
                    let (rr, env2) = spec_eval(*r, env1);
                    match rr {
                        Err(e) => (Err(e), env2),
                        Ok(y) => {
                            let v = if op == SumOp::Plus {
                                x + y
                            } else {
                                x - y
                            };
                            if v > i32::MAX || v < i32::MIN {
                                (Err(EvalError::Overflow), env2)
                            } else {
                                (Ok(v as i32), env2)
                            }
                        },
                    }
                },
            }
        },
        TreeModel::Prod(op, l, r) => {
            let (lr, env1) = spec_eval(*l, env);
            match lr {
                Err(e) => (Err(e), env1),
                Ok(x) => {
                    let (rr, env2) = spec_eval(*r, env1);
                    match rr {
                        Err(e) => (Err(e), env2),
                        Ok(y) => {
                            if op == ProdOp::Times {
                                let v = x * y;
                                if v > i32::MAX || v < i32::MIN {
                                    (Err(EvalError::Overflow), env2)
                                } else {
                                    (Ok(v as i32), env2)
                                }
                            } else {
                                if y == 0 {
                                    (Err(EvalError::DivisionByZero), env2)
                                } else {
                                    let v = trunc_div(x as int, y as int);
                                    if v > i32::MAX || v < i32::MIN {
                                        (Err(EvalError::Overflow), env2)
                                    } else {
                                        (Ok(v as i32), env2)
                                    }
                                }
                            }
                        },
                    }
                },
            }
        },
        TreeModel::Unary(op, t0) => {
            let (r0, env1) = spec_eval(*t0, env);
            match r0 {
                Err(e) => (Err(e), env1),
                Ok(x) => {
                    if op == SumOp::Plus {
                        (Ok(x), env1)
                    } else {
                        if 0 - x > i32::MAX || 0 - x < i32::MIN {
                            (Err(EvalError::Overflow), env1)
                        } else {
                            (Ok((0 - x) as i32), env1)
                        }
                    }
                },
            }
        },
        TreeModel::Assign(name, sub) => {
            let (r0, env1) = spec_eval(*sub, env);
            match r0 {
                Err(e) => (Err(e), env1),
                Ok(v) => (Ok(v), env1.insert(name, v)),
            }
        },
    }
}

/// What evaluating a parse result yields: a parse failure is passed through
/// with the environment untouched.
pub open spec fn spec_evaluate(
    parsed: Result<TreeModel, ParseErrorModel>,
    env: Map<Seq<char>, i32>,
) -> (Result<i32, ErrorModel>, Map<Seq<char>, i32>) {
    match parsed {
        Err(e) => (Err(ErrorModel::Parse(e)), env),
        Ok(t) => {
            let (r, env2) = spec_eval(t, env);
            match r {
                Ok(v) => (Ok(v), env2),
                Err(e) => (Err(ErrorModel::Eval(e)), env2),
            }
        },
    }
}

/// Whether a tree contains an assignment node.
pub open spec fn has_assign(t: TreeModel) -> bool
    decreases t,
{
    match t {
        TreeModel::Sum(_, l, r) => has_assign(*l) || has_assign(*r),
        TreeModel::Prod(_, l, r) => has_assign(*l) || has_assign(*r),
        TreeModel::Unary(_, t0) => has_assign(*t0),
        TreeModel::Assign(_, _) => true,
        TreeModel::Num(_) => false,
        TreeModel::Var(_) => false,
    }
}

/// Law: adding two numbers yields their sum, and the environment is
/// untouched, whenever the sum fits a signed 32-bit integer.
pub proof fn lemma_eval_add(a: i32, b: i32, env: Map<Seq<char>, i32>)
    requires
        i32::MIN <= a + b <= i32::MAX,
    ensures
        spec_eval(
            TreeModel::Sum(SumOp::Plus, Box::new(TreeModel::Num(a)), Box::new(TreeModel::Num(b))),
            env,
        ) == (Ok::<i32, EvalError>((a + b) as i32), env),
{
    assert(spec_eval(TreeModel::Num(a), env) == (Ok::<i32, EvalError>(a), env));
    assert(spec_eval(TreeModel::Num(b), env) == (Ok::<i32, EvalError>(b), env));
}

/// Law: subtracting two numbers yields their difference, and the environment
/// is untouched, whenever the difference fits a signed 32-bit integer.
pub proof fn lemma_eval_sub(a: i32, b: i32, env: Map<Seq<char>, i32>)
    requires
        i32::MIN <= a - b <= i32::MAX,
    ensures
        spec_eval(
            TreeModel::Sum(SumOp::Minus, Box::new(TreeModel::Num(a)), Box::new(TreeModel::Num(b))),
            env,
        ) == (Ok::<i32, EvalError>((a - b) as i32), env),
{
    assert(spec_eval(TreeModel::Num(a), env) == (Ok::<i32, EvalError>(a), env));
    assert(spec_eval(TreeModel::Num(b), env) == (Ok::<i32, EvalError>(b), env));
}

/// Law: multiplying two numbers yields their product, and the environment is
/// untouched, whenever the product fits a signed 32-bit integer.
pub proof fn lemma_eval_mul(a: i32, b: i32, env: Map<Seq<char>, i32>)
    requires
        i32::MIN <= a * b <= i32::MAX,
    ensures
        spec_eval(
            TreeModel::Prod(
                ProdOp::Times,
                Box::new(TreeModel::Num(a)),
                Box::new(TreeModel::Num(b)),
            ),
            env,
        ) == (Ok::<i32, EvalError>((a * b) as i32), env),
{
    assert(spec_eval(TreeModel::Num(a), env) == (Ok::<i32, EvalError>(a), env));
    assert(spec_eval(TreeModel::Num(b), env) == (Ok::<i32, EvalError>(b), env));
}

/// Law: dividing two numbers yields their quotient truncated toward zero,
/// and the environment is untouched, for every divisor other than zero (and
/// other than the one quotient that does not fit, the smallest value divided
/// by minus one).
pub proof fn lemma_eval_div(a: i32, b: i32, env: Map<Seq<char>, i32>)
    requires
        b != 0,
        !(a == i32::MIN && b == -1),
    ensures
        spec_eval(
            TreeModel::Prod(
                ProdOp::Divide,
                Box::new(TreeModel::Num(a)),
                Box::new(TreeModel::Num(b)),
            ),
            env,
        ) == (Ok::<i32, EvalError>(trunc_div(a as int, b as int) as i32), env),
{
    assert(spec_eval(TreeModel::Num(a), env) == (Ok::<i32, EvalError>(a), env));
    assert(spec_eval(TreeModel::Num(b), env) == (Ok::<i32, EvalError>(b), env));
    lemma_trunc_div_in_range(a, b);
}

/// Law: dividing by zero fails with the division error, and the environment
/// is untouched.
pub proof fn lemma_eval_div_by_zero(a: i32, env: Map<Seq<char>, i32>)
    ensures
        spec_eval(
            TreeModel::Prod(
                ProdOp::Divide,
                Box::new(TreeModel::Num(a)),
                Box::new(TreeModel::Num(0)),
            ),
            env,
        ) == (Err::<i32, EvalError>(EvalError::DivisionByZero), env),
{
    assert(spec_eval(TreeModel::Num(a), env) == (Ok::<i32, EvalError>(a), env));
    assert(spec_eval(TreeModel::Num(0), env) == (Ok::<i32, EvalError>(0), env));
}

/// The quotient of two signed 32-bit values fits in 32 bits, except for the
/// smallest value divided by minus one.
proof fn lemma_trunc_div_in_range(a: i32, b: i32)
    requires
        b != 0,
        !(a == i32::MIN && b == -1),
    ensures
        i32::MIN <= trunc_div(a as int, b as int) <= i32::MAX,
{
    let x = a as int;
    let d = b as int;
    let abs_x = if x < 0 {
        -x
    } else {
        x
    };
    let abs_d = if d < 0 {
        -d
    } else {
        d
    };
    if x != 0 {
        vstd::arithmetic::div_mod::lemma_div_pos_is_pos(abs_x, abs_d);
        vstd::arithmetic::div_mod::lemma_div_nonincreasing(abs_x, abs_d);
        if (x > 0) == (d > 0) {
            // The quotient is abs_x / abs_d itself; it can reach the
            // magnitude of the smallest value only for that value divided by
            // a unit divisor, and the one same-signed unit divisor is ruled
            // out.
            if abs_d > 1 {
                vstd::arithmetic::div_mod::lemma_div_decreases(abs_x, abs_d);
            }
        }
    }
}

/// Law: division truncates toward zero: the dividend differs from divisor
/// times quotient by a remainder smaller in magnitude than the divisor and
/// never of sign opposite to the dividend.
pub proof fn lemma_trunc_div_truncates(a: int, b: int)
    requires
        b != 0,
    ensures
        ({
            let r = a - b * trunc_div(a, b);
            &&& (if r < 0 {
                -r
            } else {
                r
            }) < (if b < 0 {
                -b
            } else {
                b
            })
            &&& (a >= 0 ==> r >= 0)
            &&& (a <= 0 ==> r <= 0)
        }),
{
    if a == 0 {
        assert(b * trunc_div(0, b) == 0);
        assert(a - b * trunc_div(a, b) == 0);
    } else if a > 0 && b > 0 {
        let q = a / b;
        vstd::arithmetic::div_mod::lemma_remainder(a, b);
        assert(0 <= a - (q * b) < b);
        assert(q * b == b * q) by (nonlinear_arith);
        assert(0 <= a - b * trunc_div(a, b) < b);
    } else if a < 0 && b < 0 {
        let q = (a * -1) / (b * -1);
        vstd::arithmetic::div_mod::lemma_remainder(a * -1, b * -1);
        assert(0 <= (a * -1) - (q * (b * -1)) < (b * -1));
        assert((a * -1) - q * (b * -1) == -(a - b * q)) by (nonlinear_arith);
        assert(0 <= -(a - b * trunc_div(a, b)) < -b);
    } else if a < 0 {
        let q0 = (a * -1) / b;
        vstd::arithmetic::div_mod::lemma_remainder(a * -1, b);
        assert(0 <= (a * -1) - (q0 * b) < b);
        assert((a * -1) - q0 * b == -(a - b * (q0 * -1))) by (nonlinear_arith);
        assert(0 <= -(a - b * trunc_div(a, b)) < b);
    } else {
        let q0 = a / (b * -1);
        vstd::arithmetic::div_mod::lemma_remainder(a, b * -1);
        assert(0 <= a - (q0 * (b * -1)) < (b * -1));
        assert(a - q0 * (b * -1) == a - b * (q0 * -1)) by (nonlinear_arith);
        assert(0 <= a - b * trunc_div(a, b) < -b);
    }
}

/// Law: an assignment stores the value of its right-hand side under the name
/// and yields that value, and recalling the name immediately afterwards
/// yields the same value.
pub proof fn lemma_assign_recall(name: Seq<char>, t: TreeModel, env: Map<Seq<char>, i32>)
    requires
        spec_eval(t, env).0 is Ok,
    ensures
        ({
            let (r, env1) = spec_eval(t, env);
            let v = r->Ok_0;
            &&& spec_eval(TreeModel::Assign(name, Box::new(t)), env) == (
            Ok::<i32, EvalError>(v),
            env1.insert(name, v),
            )
            &&& spec_eval(TreeModel::Var(name), env1.insert(name, v)) == (
            Ok::<i32, EvalError>(v),
            env1.insert(name, v),
            )
        }),
{
}

/// Law: reading a variable that the environment does not bind fails with the
/// undefined-variable error and leaves the environment unchanged.
pub proof fn lemma_undefined_variable(name: Seq<char>, env: Map<Seq<char>, i32>)
    requires
        !env.contains_key(name),
    ensures
        spec_eval(TreeModel::Var(name), env) == (
            Err::<i32, EvalError>(EvalError::UndefinedVariable),
            env,
        ),
{
}

/// Law: evaluating a tree without assignments leaves the environment
/// unchanged.
pub proof fn lemma_eval_no_assign_preserves_env(t: TreeModel, env: Map<Seq<char>, i32>)
    requires
        !has_assign(t),
    ensures
        spec_eval(t, env).1 == env,
    decreases t,
{
    match t {
        TreeModel::Sum(op, l, r) => {
            lemma_eval_no_assign_preserves_env(*l, env);
            let (lr, env1) = spec_eval(*l, env);
            if lr is Ok {
                lemma_eval_no_assign_preserves_env(*r, env1);
            }
        },
        TreeModel::Prod(op, l, r) => {
            lemma_eval_no_assign_preserves_env(*l, env);
            let (lr, env1) = spec_eval(*l, env);
            if lr is Ok {
                lemma_eval_no_assign_preserves_env(*r, env1);
            }
        },
        TreeModel::Unary(op, t0) => {
            lemma_eval_no_assign_preserves_env(*t0, env);
        },
        _ => {},
    }
}

/// Law: re-evaluating a tree without assignments against the environment the
/// first evaluation returned yields the first result again; nothing was
/// mutated behind the caller's back.
pub proof fn lemma_reevaluate_same(t: TreeModel, env: Map<Seq<char>, i32>)
    requires
        !has_assign(t),
    ensures
        ({
            let (r, env1) = spec_eval(t, env);
            spec_eval(t, env1) == (r, env1)
        }),
{
    lemma_eval_no_assign_preserves_env(t, env);
}

/// Evaluates a parse result, threading the environment through.
pub fn evaluate(parsed: Result<Box<ParseTree>, ParseError>, symbols: Env) -> (res: (
    Result<i32, Error>,
    Env,
))
    ensures
        ({
            let (sr, senv) = spec_evaluate(crate::parser::tree_result_model(parsed), symbols@);
            &&& line_result_model(res.0) == sr
            &&& res.1@ == senv
        }),
{
    match parsed {
        Err(e) => (Err(Error::Parse(e)), symbols),
        Ok(parse_tree) => {
            let (answer, symbols) = evaluate_tree(*parse_tree, symbols);
            match answer {
                Ok(v) => (Ok(v), symbols),
                Err(e) => (Err(Error::Eval(e)), symbols),
            }
        },
    }
}

/// Evaluates a tree, threading the environment through.
pub fn evaluate_tree(parse_tree: ParseTree, symbols: Env) -> (res: (Result<i32, EvalError>, Env))
    ensures
        ({
            let (sr, senv) = spec_eval(tree_model(parse_tree), symbols@);
            &&& res.0 == sr
            &&& res.1@ == senv
        }),
    decreases parse_tree,
{
    match parse_tree {
        ParseTree::Sum(op, left, right) => {
            let (lr, symbols) = evaluate_tree(*left, symbols);
            let x = match lr {
                Ok(v) => v,
                Err(e) => {
                    return (Err(e), symbols);
                },
            };
            let (rr, symbols) = evaluate_tree(*right, symbols);
            let y = match rr {
                Ok(v) => v,
                Err(e) => {
                    return (Err(e), symbols);
                },
            };
            let sum = match op {
                SumOp::Plus => x.checked_add(y),
                SumOp::Minus => x.checked_sub(y),
            };
            match sum {
                Some(v) => (Ok(v), symbols),
                None => (Err(EvalError::Overflow), symbols),
            }
        },
        ParseTree::Prod(op, left, right) => {
            let (lr, symbols) = evaluate_tree(*left, symbols);
            let x = match lr {
                Ok(v) => v,
                Err(e) => {
                    return (Err(e), symbols);
                },
            };
            let (rr, symbols) = evaluate_tree(*right, symbols);
            let y = match rr {
                Ok(v) => v,
                Err(e) => {
                    return (Err(e), symbols);
                },
            };
            match op {
                ProdOp::Times => match x.checked_mul(y) {
                    Some(v) => (Ok(v), symbols),
                    None => (Err(EvalError::Overflow), symbols),
                },
                ProdOp::Divide => {
                    if y == 0 {
                        (Err(EvalError::DivisionByZero), symbols)
                    } else {
                        match x.checked_div(y) {
                            Some(v) => (Ok(v), symbols),
                            None => (Err(EvalError::Overflow), symbols),
                        }
                    }
                },
            }
        },
        ParseTree::Unary(op, tree) => {
            let (r0, symbols) = evaluate_tree(*tree, symbols);
            let x = match r0 {
                Ok(v) => v,
                Err(e) => {
                    return (Err(e), symbols);
                },
            };
            match op {
                SumOp::Plus => (Ok(x), symbols),
                SumOp::Minus => match 0i32.checked_sub(x) {
                    Some(v) => (Ok(v), symbols),
                    None => (Err(EvalError::Overflow), symbols),
                },
            }
        },
        ParseTree::Num(x) => (Ok(x), symbols),
        ParseTree::Assign(name, tree) => {
            let (r0, symbols) = evaluate_tree(*tree, symbols);
            let x = match r0 {
                Ok(v) => v,
                Err(e) => {
                    return (Err(e), symbols);
                },
            };
            let mut symbols = symbols;
            symbols.insert(name, x);
            (Ok(x), symbols)
        },
        ParseTree::Var(name) => {
            match symbols.get(&name) {
                Some(x) => (Ok(x), symbols),
                None => (Err(EvalError::UndefinedVariable), symbols),
            }
        },
    }
}

} // verus!
