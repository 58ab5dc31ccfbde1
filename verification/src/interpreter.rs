use std::rc::Rc;

use vstd::prelude::*;
use vstd::string::StringExecFns;

use crate::env::{Environment, define_in, lookup};
use crate::error::RuntimeError;
use crate::expr::Expr;
use crate::parser::opt_seq;
use crate::text::{lemma_text_of, text_is_function, text_of};
use crate::stmt::Stmt;
use crate::token::{Literal, Token, TokenType, share};

verus! {

/// A value of a running Lox program. Numbers are of the evaluator's number
/// type `N`.
#[derive(Debug, PartialEq)]
pub enum RuntimeValue<N> {
    Number(N),
    Bool(bool),
    Str(String),
    Nil,
}

/// A copy of a value is the same value.
impl<N: Copy> Clone for RuntimeValue<N> {
    fn clone(&self) -> (r: Self)
        ensures
            r == *self,
    {
        match self {
            RuntimeValue::Number(n) => RuntimeValue::Number(*n),
            RuntimeValue::Bool(b) => RuntimeValue::Bool(*b),
            RuntimeValue::Str(s) => RuntimeValue::Str(s.clone()),
            RuntimeValue::Nil => RuntimeValue::Nil,
        }
    }
}

/// A clone of a value, as `Environment::get` and `Environment::assign`
/// hand out and store, is the value itself.
pub proof fn law_value_clone_is_exact<N: Copy>(v: RuntimeValue<N>, c: RuntimeValue<N>)
    requires
        cloned::<RuntimeValue<N>>(v, c),
    ensures
        c == v,
{
}

/// The model of a value: a string is taken as its characters.
pub enum ValueModel<N> {
    Number(N),
    Bool(bool),
    Str(Seq<char>),
    Nil,
}

impl<N> View for RuntimeValue<N> {
    type V = ValueModel<N>;

    open spec fn view(&self) -> ValueModel<N> {
        match self {
            RuntimeValue::Number(n) => ValueModel::Number(*n),
            RuntimeValue::Bool(b) => ValueModel::Bool(*b),
            RuntimeValue::Str(s) => ValueModel::Str(s@),
            RuntimeValue::Nil => ValueModel::Nil,
        }
    }
}

/// `nil` and `false` are false; every other value is true.
pub open spec fn truthy<N>(v: ValueModel<N>) -> bool {
    match v {
        ValueModel::Nil => false,
        ValueModel::Bool(b) => b,
        _ => true,
    }
}

impl<N> RuntimeValue<N> {
    /// Whether the value counts as true in a condition.
    pub fn is_truthy(&self) -> (r: bool)
        ensures
            r == truthy(self@),
    {
        match self {
            RuntimeValue::Nil => false,
            RuntimeValue::Bool(b) => *b,
            _ => true,
        }
    }
}

/// The operations on two numbers that binary operators perform.
#[derive(Clone, Copy, Debug, PartialEq, Eq, Structural)]
pub enum NumberOp {
    Greater,
    GreaterEqual,
    Less,
    LessEqual,
    Subtract,
    Multiply,
    Add,
    Divide,
}

/// What evaluating a binary operator on two values comes to.
#[derive(Clone, Copy, Debug, PartialEq, Eq, Structural)]
pub enum BinaryAction {
    /// An operation on the two numbers.
    Numbers(NumberOp),
    /// The two strings joined.
    JoinStrings,
    /// The left string joined with the right number's text.
    JoinStringNumber,
    /// The left number's text joined with the right string.
    JoinNumberString,
    /// Whether the values are equal, or, if `negate`, unequal.
    Equality { negate: bool },
    /// The operands do not fit the operator.
    TypeError,
}

/// The number operation of an arithmetic or comparison operator.
pub open spec fn number_op_of(op: TokenType) -> Option<NumberOp> {
    match op {
        TokenType::Greater => Some(NumberOp::Greater),
        TokenType::GreaterEqual => Some(NumberOp::GreaterEqual),
        TokenType::Less => Some(NumberOp::Less),
        TokenType::LessEqual => Some(NumberOp::LessEqual),
        TokenType::Minus => Some(NumberOp::Subtract),
        TokenType::Star => Some(NumberOp::Multiply),
        TokenType::Slash => Some(NumberOp::Divide),
        _ => None,
    }
}

/// The rule for a binary operator: comparisons, `-`, `*` and `/` need two
/// numbers; `+` adds two numbers, joins two strings, or joins a string with
/// a number's text on either side; `==` and `!=` take any values.
pub open spec fn binary_rule<N>(op: TokenType, l: ValueModel<N>, r: ValueModel<N>) -> BinaryAction {
    if op == TokenType::BangEqual {
        BinaryAction::Equality { negate: true }
    } else if op == TokenType::EqualEqual {
        BinaryAction::Equality { negate: false }
    } else if op == TokenType::Plus {
        match (l, r) {
            (ValueModel::Number(_), ValueModel::Number(_)) => BinaryAction::Numbers(NumberOp::Add),
            (ValueModel::Str(_), ValueModel::Str(_)) => BinaryAction::JoinStrings,
            (ValueModel::Str(_), ValueModel::Number(_)) => BinaryAction::JoinStringNumber,
            (ValueModel::Number(_), ValueModel::Str(_)) => BinaryAction::JoinNumberString,
            _ => BinaryAction::TypeError,
        }
    } else {
        match number_op_of(op) {
            Some(n) => if l is Number && r is Number {
                BinaryAction::Numbers(n)
            } else {
                BinaryAction::TypeError
            },
            None => BinaryAction::TypeError,
        }
    }
}

/// Decides what the binary operator `op` does with the operands `l` and `r`.
pub fn binary_action<N>(op: TokenType, l: &RuntimeValue<N>, r: &RuntimeValue<N>) -> (a: BinaryAction)
    ensures
        a == binary_rule(op, l@, r@),
{
    let both_numbers = matches!((l, r), (RuntimeValue::Number(_), RuntimeValue::Number(_)));
    match op {
        TokenType::BangEqual => BinaryAction::Equality { negate: true },
        TokenType::EqualEqual => BinaryAction::Equality { negate: false },
        TokenType::Plus => match (l, r) {
            (RuntimeValue::Number(_), RuntimeValue::Number(_)) => BinaryAction::Numbers(NumberOp::Add),
            (RuntimeValue::Str(_), RuntimeValue::Str(_)) => BinaryAction::JoinStrings,
            (RuntimeValue::Str(_), RuntimeValue::Number(_)) => BinaryAction::JoinStringNumber,
            (RuntimeValue::Number(_), RuntimeValue::Str(_)) => BinaryAction::JoinNumberString,
            _ => BinaryAction::TypeError,
        },
        _ => {
            let n = match op {
                TokenType::Greater => Some(NumberOp::Greater),
                TokenType::GreaterEqual => Some(NumberOp::GreaterEqual),
                TokenType::Less => Some(NumberOp::Less),
                TokenType::LessEqual => Some(NumberOp::LessEqual),
                TokenType::Minus => Some(NumberOp::Subtract),
                TokenType::Star => Some(NumberOp::Multiply),
                TokenType::Slash => Some(NumberOp::Divide),
                _ => None,
            };
            match n {
                Some(n) => if both_numbers {
                    BinaryAction::Numbers(n)
                } else {
                    BinaryAction::TypeError
                },
                None => BinaryAction::TypeError,
            }
        },
    }
}

/// What evaluating a unary operator on a value comes to.
#[derive(Clone, Copy, Debug, PartialEq, Eq, Structural)]
pub enum UnaryAction {
    /// The boolean result of `!`.
    Not(bool),
    /// The number negated.
    Negate,
    /// The operand does not fit the operator.
    TypeError,
}

/// `!` gives the opposite of the operand's truth; `-` negates a number.
pub open spec fn unary_rule<N>(op: TokenType, v: ValueModel<N>) -> UnaryAction {
    if op == TokenType::Bang {
        UnaryAction::Not(!truthy(v))
    } else if op == TokenType::Minus && v is Number {
        UnaryAction::Negate
    } else {
        UnaryAction::TypeError
    }
}

/// Decides what the unary operator `op` does with the operand `v`.
pub fn unary_action<N>(op: TokenType, v: &RuntimeValue<N>) -> (a: UnaryAction)
    ensures
        a == unary_rule(op, v@),
{
    match op {
        TokenType::Bang => UnaryAction::Not(!v.is_truthy()),
        TokenType::Minus => match v {
            RuntimeValue::Number(_) => UnaryAction::Negate,
            _ => UnaryAction::TypeError,
        },
        _ => UnaryAction::TypeError,
    }
}

/// Equality of values as far as it does not rest on comparing two numbers:
/// `nil` equals only `nil`, values of different kinds differ, booleans and
/// strings compare by content; two numbers are left to the number type.
pub open spec fn equality_rule<N>(a: ValueModel<N>, b: ValueModel<N>) -> Option<bool> {
    match (a, b) {
        (ValueModel::Nil, ValueModel::Nil) => Some(true),
        (ValueModel::Number(_), ValueModel::Number(_)) => None,
        (ValueModel::Bool(x), ValueModel::Bool(y)) => Some(x == y),
        (ValueModel::Str(x), ValueModel::Str(y)) => Some(x == y),
        _ => Some(false),
    }
}

/// Whether `a` and `b` are equal, unless both are numbers (then `None`).
pub fn values_equal<N>(a: &RuntimeValue<N>, b: &RuntimeValue<N>) -> (r: Option<bool>)
    ensures
        r == equality_rule(a@, b@),
{
    match (a, b) {
        (RuntimeValue::Nil, RuntimeValue::Nil) => Some(true),
        (RuntimeValue::Nil, _) | (_, RuntimeValue::Nil) => Some(false),
        (RuntimeValue::Number(_), RuntimeValue::Number(_)) => None,
        (RuntimeValue::Bool(x), RuntimeValue::Bool(y)) => Some(*x == *y),
        (RuntimeValue::Str(x), RuntimeValue::Str(y)) => Some(*x == *y),
        _ => Some(false),
    }
}

} // verus!

verus! {

impl<N> From<bool> for RuntimeValue<N> {
    fn from(value: bool) -> (r: Self) {
        RuntimeValue::Bool(value)
    }
}

impl<N> vstd::std_specs::convert::FromSpecImpl<bool> for RuntimeValue<N> {
    open spec fn obeys_from_spec() -> bool {
        true
    }

    open spec fn from_spec(value: bool) -> Self {
        RuntimeValue::Bool(value)
    }
}

/// Equality does not depend on the order of the operands.
pub proof fn law_equality_symmetric<N>(a: ValueModel<N>, b: ValueModel<N>)
    ensures
        equality_rule(a, b) == equality_rule(b, a),
{
}

/// `nil` equals `nil` and nothing else.
pub proof fn law_nil_equals_only_nil<N>(v: ValueModel<N>)
    ensures
        equality_rule(ValueModel::Nil, v) == Some(v is Nil),
{
}

} // verus!

verus! {

/// Scopes of variables, innermost first.
pub type Scopes<N> = Seq<Map<Seq<char>, RuntimeValue<N>>>;

/// The evaluator's result depends only on the variables' values: two calls
/// on environments with the same scopes and on the same expression give the
/// same result.
pub open spec fn evaluator_is_function<N, F>(evaluate: F) -> bool where
    F: Fn(&Environment<RuntimeValue<N>>, &Expr) -> Result<RuntimeValue<N>, RuntimeError>,
 {
    forall|
        e1: Environment<RuntimeValue<N>>,
        e2: Environment<RuntimeValue<N>>,
        x: Expr,
        v1: Result<RuntimeValue<N>, RuntimeError>,
        v2: Result<RuntimeValue<N>, RuntimeError>,
    |
        e1.wf() && e2.wf() && e1.scopes() == e2.scopes() && #[trigger] call_ensures(
            evaluate,
            (&e1, &x),
            v1,
        ) && #[trigger] call_ensures(evaluate, (&e2, &x), v2) ==> v1 == v2
}

/// The printer's text depends only on the value.
pub open spec fn printer_is_function<N, G>(show: G) -> bool where G: Fn(&RuntimeValue<N>) -> String {
    forall|v: RuntimeValue<N>, s1: String, s2: String|
        #[trigger] call_ensures(show, (&v,), s1) && #[trigger] call_ensures(show, (&v,), s2) ==> s1 == s2
}

/// The evaluator may give `v` for `x` in some environment with `scopes`.
pub open spec fn evaluates_to<N, F>(evaluate: F, scopes: Scopes<N>, x: Expr, v: Result<RuntimeValue<N>, RuntimeError>) -> bool where
    F: Fn(&Environment<RuntimeValue<N>>, &Expr) -> Result<RuntimeValue<N>, RuntimeError>,
 {
    exists|e: Environment<RuntimeValue<N>>|
        e.wf() && e.scopes() == scopes && #[trigger] call_ensures(evaluate, (&e, &x), v)
}

/// What the evaluator gives for `x` in an environment with `scopes`.
pub open spec fn evaluated<N, F>(evaluate: F, scopes: Scopes<N>, x: Expr) -> Result<RuntimeValue<N>, RuntimeError> where
    F: Fn(&Environment<RuntimeValue<N>>, &Expr) -> Result<RuntimeValue<N>, RuntimeError>,
 {
    choose|v: Result<RuntimeValue<N>, RuntimeError>| evaluates_to(evaluate, scopes, x, v)
}

/// The text the printer gives for `v`.
pub open spec fn shown<N, G>(show: G, v: RuntimeValue<N>) -> String where G: Fn(&RuntimeValue<N>) -> String {
    choose|s: String| call_ensures(show, (&v,), s)
}

/// A measure of `s` that exceeds that of the statements nested in it.
pub open spec fn stmt_size(s: Stmt) -> nat
    decreases s,
{
    match s {
        Stmt::Block(v) => 1 + stmts_size(v@),
        _ => 1,
    }
}

/// A measure of `ss` that exceeds the measure of each of its statements and
/// of its tail.
pub open spec fn stmts_size(ss: Seq<Stmt>) -> nat
    decreases ss,
{
    if ss.len() == 0 {
        0
    } else {
        1 + stmt_size(ss[0]) + stmts_size(ss.drop_first())
    }
}

/// Executing `stmt` in `scopes`: the scopes afterwards and the result, which
/// is the statement's output, if any, or an error.
///
/// An expression or `print` statement outputs the text of its value. A
/// variable declaration defines its name in the innermost scope, as `nil`
/// when it has no initializer. A block runs its statements in a new inner
/// scope and leaves it afterwards; the output of statements inside a block is
/// dropped, and a block that fails stays inside its scope.
pub open spec fn run_stmt<N, F, G>(evaluate: F, show: G, scopes: Scopes<N>, stmt: Stmt) -> (
    Scopes<N>,
    Result<Option<String>, RuntimeError>,
) where
    F: Fn(&Environment<RuntimeValue<N>>, &Expr) -> Result<RuntimeValue<N>, RuntimeError>,
    G: Fn(&RuntimeValue<N>) -> String,
 decreases stmt_size(stmt), 1int,
{
    match stmt {
        Stmt::Expression(e) => match evaluated(evaluate, scopes, *e) {
            Err(x) => (scopes, Err(x)),
            Ok(v) => (scopes, Ok(Some(shown(show, v)))),
        },
        Stmt::Print(e) => match evaluated(evaluate, scopes, *e) {
            Err(x) => (scopes, Err(x)),
            Ok(v) => (scopes, Ok(Some(shown(show, v)))),
        },
        Stmt::Var { name, initializer } => match initializer {
            Some(e) => match evaluated(evaluate, scopes, *e) {
                Err(x) => (scopes, Err(x)),
                Ok(v) => (define_in(scopes, name.lexeme@, v), Ok(None)),
            },
            None => (define_in(scopes, name.lexeme@, RuntimeValue::Nil), Ok(None)),
        },
        Stmt::Block(stmts) => {
            let (inner, r) = run_stmts(evaluate, show, seq![Map::empty()] + scopes, stmts@);
            match r {
                Err(x) => (inner, Err(x)),
                Ok(_) => (inner.drop_first(), Ok(None)),
            }
        },
    }
}

/// Executing `stmts` in order, stopping at the first error.
pub open spec fn run_stmts<N, F, G>(evaluate: F, show: G, scopes: Scopes<N>, stmts: Seq<Stmt>) -> (
    Scopes<N>,
    Result<(), RuntimeError>,
) where
    F: Fn(&Environment<RuntimeValue<N>>, &Expr) -> Result<RuntimeValue<N>, RuntimeError>,
    G: Fn(&RuntimeValue<N>) -> String,
 decreases stmts_size(stmts), 0int,
{
    if stmts.len() == 0 {
        (scopes, Ok(()))
    } else {
        let (s1, r1) = run_stmt(evaluate, show, scopes, stmts[0]);
        match r1 {
            Err(x) => (s1, Err(x)),
            Ok(_) => run_stmts(evaluate, show, s1, stmts.drop_first()),
        }
    }
}

/// A statement that succeeds leaves as many scopes as it found.
pub proof fn lemma_run_stmt_keeps_depth<N, F, G>(evaluate: F, show: G, scopes: Scopes<N>, stmt: Stmt) where
    F: Fn(&Environment<RuntimeValue<N>>, &Expr) -> Result<RuntimeValue<N>, RuntimeError>,
    G: Fn(&RuntimeValue<N>) -> String,

    requires
        scopes.len() > 0,
    ensures
        run_stmt(evaluate, show, scopes, stmt).1 is Ok ==> run_stmt(evaluate, show, scopes, stmt).0.len()
            == scopes.len(),
    decreases stmt_size(stmt), 1int,
{
    if let Stmt::Block(stmts) = stmt {
        lemma_run_stmts_keeps_depth(evaluate, show, seq![Map::empty()] + scopes, stmts@);
    }
}

/// Statements that succeed leave as many scopes as they found.
pub proof fn lemma_run_stmts_keeps_depth<N, F, G>(evaluate: F, show: G, scopes: Scopes<N>, stmts: Seq<Stmt>) where
    F: Fn(&Environment<RuntimeValue<N>>, &Expr) -> Result<RuntimeValue<N>, RuntimeError>,
    G: Fn(&RuntimeValue<N>) -> String,

    requires
        scopes.len() > 0,
    ensures
        run_stmts(evaluate, show, scopes, stmts).1 is Ok ==> run_stmts(evaluate, show, scopes, stmts).0.len()
            == scopes.len(),
    decreases stmts_size(stmts), 0int,
{
    if stmts.len() > 0 {
        lemma_run_stmt_keeps_depth(evaluate, show, scopes, stmts[0]);
        let (s1, r1) = run_stmt(evaluate, show, scopes, stmts[0]);
        if r1 is Ok {
            lemma_run_stmts_keeps_depth(evaluate, show, s1, stmts.drop_first());
        }
    }
}

/// Running `p + t` is running `p` and then, if it succeeded, `t`.
pub proof fn lemma_run_stmts_concat<N, F, G>(evaluate: F, show: G, scopes: Scopes<N>, p: Seq<Stmt>, t: Seq<Stmt>) where
    F: Fn(&Environment<RuntimeValue<N>>, &Expr) -> Result<RuntimeValue<N>, RuntimeError>,
    G: Fn(&RuntimeValue<N>) -> String,

    ensures
        run_stmts(evaluate, show, scopes, p + t) == match run_stmts(evaluate, show, scopes, p) {
            (m, Ok(_)) => run_stmts(evaluate, show, m, t),
            (m, Err(x)) => (m, Err::<(), RuntimeError>(x)),
        },
    decreases p.len(),
{
    if p.len() == 0 {
        assert(p + t =~= t);
    } else {
        assert((p + t)[0] == p[0]);
        assert((p + t).drop_first() =~= p.drop_first() + t);
        let (s1, r1) = run_stmt(evaluate, show, scopes, p[0]);
        if r1 is Ok {
            lemma_run_stmts_concat(evaluate, show, s1, p.drop_first(), t);
        }
    }
}

/// Every statement of a list measures less than the list.
pub proof fn lemma_stmt_size_in(ss: Seq<Stmt>, i: int)
    requires
        0 <= i < ss.len(),
    ensures
        stmt_size(ss[i]) < stmts_size(ss),
    decreases ss.len(),
{
    if i > 0 {
        lemma_stmt_size_in(ss.drop_first(), i - 1);
    }
}

proof fn lemma_evaluated<N, F>(evaluate: F, env: Environment<RuntimeValue<N>>, x: Expr, v: Result<RuntimeValue<N>, RuntimeError>) where
    F: Fn(&Environment<RuntimeValue<N>>, &Expr) -> Result<RuntimeValue<N>, RuntimeError>,

    requires
        env.wf(),
        evaluator_is_function::<N, F>(evaluate),
        call_ensures(evaluate, (&env, &x), v),
    ensures
        evaluated(evaluate, env.scopes(), x) == v,
{
    assert(evaluates_to(evaluate, env.scopes(), x, v));
    let w = evaluated(evaluate, env.scopes(), x);
    let e2 = choose|e: Environment<RuntimeValue<N>>|
        e.wf() && e.scopes() == env.scopes() && #[trigger] call_ensures(evaluate, (&e, &x), w);
    assert(call_ensures(evaluate, (&e2, &x), w));
}

proof fn lemma_shown<N, G>(show: G, v: RuntimeValue<N>, s: String) where G: Fn(&RuntimeValue<N>) -> String
    requires
        printer_is_function::<N, G>(show),
        call_ensures(show, (&v,), s),
    ensures
        shown(show, v) == s,
{
    let w = shown(show, v);
    assert(call_ensures(show, (&v,), w));
}

/// Executes `stmt` in `env`, evaluating expressions with `evaluate` and
/// turning values into text with `show`; the result is the statement's
/// output, if any, or the error that stopped it.
///
/// The evaluator and the printer must be functions of what they are given.
pub fn execute<N, F, G>(env: &mut Environment<RuntimeValue<N>>, stmt: &Stmt, evaluate: &F, show: &G) -> (r: Result<
    Option<String>,
    RuntimeError,
>) where
    F: Fn(&Environment<RuntimeValue<N>>, &Expr) -> Result<RuntimeValue<N>, RuntimeError>,
    G: Fn(&RuntimeValue<N>) -> String,

    requires
        old(env).wf(),
        evaluator_is_function::<N, F>(*evaluate),
        printer_is_function::<N, G>(*show),
        forall|e: &Environment<RuntimeValue<N>>, x: &Expr| call_requires(*evaluate, (e, x)),
        forall|v: &RuntimeValue<N>| call_requires(*show, (v,)),
    ensures
        final(env).wf(),
        (final(env).scopes(), r) == run_stmt(*evaluate, *show, old(env).scopes(), *stmt),
    decreases stmt_size(*stmt),
{
    match stmt {
        Stmt::Expression(e) | Stmt::Print(e) => {
            let v = evaluate(&*env, &**e);
            proof {
                lemma_evaluated(*evaluate, *env, **e, v);
            }
            match v {
                Err(x) => Err(x),
                Ok(value) => {
                    let text = show(&value);
                    proof {
                        lemma_shown(*show, value, text);
                    }
                    Ok(Some(text))
                },
            }
        },
        Stmt::Var { name, initializer } => {
            let value = match initializer {
                Some(init) => {
                    let v = evaluate(&*env, &**init);
                    proof {
                        lemma_evaluated(*evaluate, *env, **init, v);
                    }
                    match v {
                        Err(x) => {
                            return Err(x);
                        },
                        Ok(value) => value,
                    }
                },
                None => RuntimeValue::Nil,
            };
            env.define(name.lexeme.clone(), value);
            Ok(None)
        },
        Stmt::Block(stmts) => {
            let ghost outer = env.scopes();
            let mut prev = Environment::new();
            std::mem::swap(&mut prev, env);
            *env = Environment::new_from(prev);
            let ghost inner0 = env.scopes();
            let mut i: usize = 0;
            assert(stmts@.take(0) =~= Seq::<Stmt>::empty());
            while i < stmts.len()
                invariant
                    env.wf(),
                    0 <= i <= stmts@.len(),
                    inner0 == seq![Map::<Seq<char>, RuntimeValue<N>>::empty()] + outer,
                    outer == old(env).scopes(),
                    stmt_size(*stmt) == 1 + stmts_size(stmts@),
                    run_stmt(*evaluate, *show, outer, *stmt) == (match run_stmts(*evaluate, *show, inner0, stmts@) {
                        (inner, Err(x)) => (inner, Err::<Option<String>, RuntimeError>(x)),
                        (inner, Ok(_)) => (inner.drop_first(), Ok::<Option<String>, RuntimeError>(None)),
                    }),
                    run_stmts(*evaluate, *show, inner0, stmts@.take(i as int)) == (env.scopes(), Ok::<(), RuntimeError>(())),
                    evaluator_is_function::<N, F>(*evaluate),
                    printer_is_function::<N, G>(*show),
                    forall|e: &Environment<RuntimeValue<N>>, x: &Expr| call_requires(*evaluate, (e, x)),
                    forall|v: &RuntimeValue<N>| call_requires(*show, (v,)),
                decreases stmts@.len() - i,
            {
                proof {
                    lemma_stmt_size_in(stmts@, i as int);
                }
                let ghost before = env.scopes();
                let r = execute(env, &stmts[i], evaluate, show);
                proof {
                    reveal_with_fuel(run_stmts, 2);
                    let one = seq![stmts@[i as int]];
                    assert(one[0] == stmts@[i as int]);
                    assert(one.drop_first() =~= Seq::<Stmt>::empty());
                    lemma_run_stmts_concat(*evaluate, *show, inner0, stmts@.take(i as int), one);
                    assert(stmts@.take(i as int) + one =~= stmts@.take(i + 1));
                    let rest = stmts@.skip(i as int);
                    assert(rest[0] == stmts@[i as int]);
                    lemma_run_stmts_concat(*evaluate, *show, inner0, stmts@.take(i as int), rest);
                    assert(stmts@.take(i as int) + rest =~= stmts@);
                }
                match r {
                    Err(x) => {
                        return Err(x);
                    },
                    Ok(_) => {},
                }
                i = i + 1;
            }
            proof {
                assert(stmts@.take(i as int) =~= stmts@);
                old(env).lemma_has_scope();
                lemma_run_stmts_keeps_depth(*evaluate, *show, inner0, stmts@);
            }
            let mut inner = Environment::new();
            std::mem::swap(&mut inner, env);
            *env = inner.into_enclosing().unwrap();
            Ok(None)
        },
    }
}

/// Running a program's statements one after another: the scopes afterwards,
/// the outputs of the statements that ran, in order, and the error of the
/// first statement that failed, which stops the run.
pub open spec fn run_program<N, F, G>(evaluate: F, show: G, scopes: Scopes<N>, stmts: Seq<Stmt>) -> (
    Scopes<N>,
    Seq<String>,
    Result<(), RuntimeError>,
) where
    F: Fn(&Environment<RuntimeValue<N>>, &Expr) -> Result<RuntimeValue<N>, RuntimeError>,
    G: Fn(&RuntimeValue<N>) -> String,
 decreases stmts.len(),
{
    if stmts.len() == 0 {
        (scopes, seq![], Ok(()))
    } else {
        let (s1, r1) = run_stmt(evaluate, show, scopes, stmts[0]);
        match r1 {
            Err(x) => (s1, seq![], Err(x)),
            Ok(out) => {
                let (s2, outs, r) = run_program(evaluate, show, s1, stmts.drop_first());
                (s2, opt_seq(out) + outs, r)
            },
        }
    }
}

/// Executes `stmts` in `env` one after another, as `execute` does each, and
/// hands back their outputs in order and, if one failed, its error; the
/// statements after it do not run.
pub fn interpret<N, F, G>(env: &mut Environment<RuntimeValue<N>>, stmts: Vec<Stmt>, evaluate: &F, show: &G) -> (r: (
    Vec<String>,
    Result<(), RuntimeError>,
)) where
    F: Fn(&Environment<RuntimeValue<N>>, &Expr) -> Result<RuntimeValue<N>, RuntimeError>,
    G: Fn(&RuntimeValue<N>) -> String,

    requires
        old(env).wf(),
        evaluator_is_function::<N, F>(*evaluate),
        printer_is_function::<N, G>(*show),
        forall|e: &Environment<RuntimeValue<N>>, x: &Expr| call_requires(*evaluate, (e, x)),
        forall|v: &RuntimeValue<N>| call_requires(*show, (v,)),
    ensures
        final(env).wf(),
        (final(env).scopes(), r.0@, r.1) == run_program(*evaluate, *show, old(env).scopes(), stmts@),
{
    let ghost all = run_program(*evaluate, *show, old(env).scopes(), stmts@);
    let mut outputs: Vec<String> = Vec::new();
    let mut failure: Option<RuntimeError> = None;
    let mut i: usize = 0;
    assert(stmts@.skip(0) =~= stmts@);
    while i < stmts.len() && failure.is_none()
        invariant
            env.wf(),
            evaluator_is_function::<N, F>(*evaluate),
            printer_is_function::<N, G>(*show),
            forall|e: &Environment<RuntimeValue<N>>, x: &Expr| call_requires(*evaluate, (e, x)),
            forall|v: &RuntimeValue<N>| call_requires(*show, (v,)),
            0 <= i <= stmts.len(),
            failure is None ==> all == ({
                let (s, outs, r) = run_program(*evaluate, *show, env.scopes(), stmts@.skip(i as int));
                (s, outputs@ + outs, r)
            }),
            failure matches Some(e) ==> all == (env.scopes(), outputs@, Err::<(), RuntimeError>(e)),
        decreases stmts.len() - i,
    {
        let ghost rest = stmts@.skip(i as int);
        assert(rest[0] == stmts@[i as int]);
        assert(rest.drop_first() =~= stmts@.skip(i + 1));
        let ghost before = outputs@;
        let ghost cur = env.scopes();
        match execute(env, &stmts[i], evaluate, show) {
            Err(e) => {
                assert(run_program(*evaluate, *show, cur, rest) == (env.scopes(), Seq::<String>::empty(), Err::<(), RuntimeError>(e)));
                assert(before + Seq::<String>::empty() =~= before);
                failure = Some(e);
            },
            Ok(out) => {
                if let Some(o) = out {
                    outputs.push(o);
                }
                proof {
                    let (s2, outs, r) = run_program(*evaluate, *show, env.scopes(), stmts@.skip(i + 1));
                    assert(outputs@ == before + opt_seq(out));
                    assert(before + (opt_seq(out) + outs) =~= outputs@ + outs);
                }
            },
        }
        i = i + 1;
    }
    match failure {
        Some(e) => (outputs, Err(e)),
        None => {
            assert(outputs@ + Seq::<String>::empty() =~= outputs@);
            (outputs, Ok(()))
        },
    }
}

} // verus!

verus! {

// ---------------------------------------------------------------------------
// Evaluation of expressions. What a number is, and the operations on numbers,
// belong to the evaluator's number type; they are handed in as functions:
// `numeral` reads a number literal's text, `compare` performs a comparison,
// `arith` performs an arithmetic operation (`None` only where a division
// divides by zero), `negate` negates, `number_text` gives a number's text
// where it is joined to a string, and `numbers_equal` compares two numbers
// for equality.
// ---------------------------------------------------------------------------

/// The model of an evaluation's outcome.
pub open spec fn result_model<N>(r: Result<RuntimeValue<N>, RuntimeError>) -> Result<ValueModel<N>, RuntimeError> {
    match r {
        Ok(v) => Ok(v@),
        Err(e) => Err(e),
    }
}

/// Whether a number operation is a comparison.
pub open spec fn is_comparison(o: NumberOp) -> bool {
    ||| o == NumberOp::Greater
    ||| o == NumberOp::GreaterEqual
    ||| o == NumberOp::Less
    ||| o == NumberOp::LessEqual
}

/// The number operations can be called on any arguments, each gives one
/// result for given arguments, and arithmetic fails only in a division.
pub open spec fn number_ops_ready<N, C, P, A, G, J, E>(
    numeral: C,
    compare: P,
    arith: A,
    negate: G,
    number_text: J,
    numbers_equal: E,
) -> bool where
    C: Fn(&String) -> N,
    P: Fn(NumberOp, &N, &N) -> bool,
    A: Fn(NumberOp, &N, &N) -> Option<N>,
    G: Fn(&N) -> N,
    J: Fn(&N) -> String,
    E: Fn(&N, &N) -> bool,
 {
    &&& forall|t: &String| call_requires(numeral, (t,))
    &&& forall|o: NumberOp, x: &N, y: &N| call_requires(compare, (o, x, y))
    &&& forall|o: NumberOp, x: &N, y: &N| call_requires(arith, (o, x, y))
    &&& forall|x: &N| call_requires(negate, (x,))
    &&& forall|x: &N| call_requires(number_text, (x,))
    &&& forall|x: &N, y: &N| call_requires(numbers_equal, (x, y))
    &&& forall|t: String, n1: N, n2: N|
        #[trigger] call_ensures(numeral, (&t,), n1) && #[trigger] call_ensures(numeral, (&t,), n2) ==> n1 == n2
    &&& forall|o: NumberOp, x: N, y: N, b1: bool, b2: bool|
        #[trigger] call_ensures(compare, (o, &x, &y), b1) && #[trigger] call_ensures(compare, (o, &x, &y), b2)
            ==> b1 == b2
    &&& forall|o: NumberOp, x: N, y: N, r1: Option<N>, r2: Option<N>|
        #[trigger] call_ensures(arith, (o, &x, &y), r1) && #[trigger] call_ensures(arith, (o, &x, &y), r2) ==> r1
            == r2
    &&& forall|o: NumberOp, x: N, y: N, r: Option<N>|
        #[trigger] call_ensures(arith, (o, &x, &y), r) && o != NumberOp::Divide ==> r is Some
    &&& forall|x: N, n1: N, n2: N|
        #[trigger] call_ensures(negate, (&x,), n1) && #[trigger] call_ensures(negate, (&x,), n2) ==> n1 == n2
    &&& text_is_function::<N, J>(number_text)
    &&& forall|x: N, y: N, b1: bool, b2: bool|
        #[trigger] call_ensures(numbers_equal, (&x, &y), b1) && #[trigger] call_ensures(numbers_equal, (&x, &y), b2)
            ==> b1 == b2
}

/// The number a numeral's text stands for.
pub open spec fn numeral_value<N, C: Fn(&String) -> N>(numeral: C, t: String) -> N {
    choose|n: N| call_ensures(numeral, (&t,), n)
}

/// The outcome of a comparison of two numbers.
pub open spec fn compared<N, P: Fn(NumberOp, &N, &N) -> bool>(compare: P, o: NumberOp, x: N, y: N) -> bool {
    choose|b: bool| call_ensures(compare, (o, &x, &y), b)
}

/// The outcome of an arithmetic operation on two numbers: a number, except
/// that a division may fail.
pub open spec fn arithmetic<N, A: Fn(NumberOp, &N, &N) -> Option<N>>(arith: A, o: NumberOp, x: N, y: N) -> Option<N> {
    if o == NumberOp::Divide {
        choose|r: Option<N>| call_ensures(arith, (o, &x, &y), r)
    } else {
        Some(choose|n: N| call_ensures(arith, (o, &x, &y), Some(n)))
    }
}

/// A number negated.
pub open spec fn negated<N, G: Fn(&N) -> N>(negate: G, x: N) -> N {
    choose|n: N| call_ensures(negate, (&x,), n)
}

/// Whether two numbers are equal.
pub open spec fn numbers_equal_spec<N, E: Fn(&N, &N) -> bool>(numbers_equal: E, x: N, y: N) -> bool {
    choose|b: bool| call_ensures(numbers_equal, (&x, &y), b)
}

/// The value of a literal.
pub open spec fn literal_value<N, C: Fn(&String) -> N>(numeral: C, l: Literal) -> ValueModel<N> {
    match l {
        Literal::Number(t) => ValueModel::Number(numeral_value(numeral, t)),
        Literal::Bool(b) => ValueModel::Bool(b),
        Literal::Str(s) => ValueModel::Str(s@),
        _ => ValueModel::Nil,
    }
}

/// The value of a binary operator applied to the values `l` and `r`, as the
/// operator's rule decides.
pub open spec fn binary_value<N, P, A, J, E>(
    compare: P,
    arith: A,
    number_text: J,
    numbers_equal: E,
    operator: Rc<Token>,
    l: ValueModel<N>,
    r: ValueModel<N>,
) -> Result<ValueModel<N>, RuntimeError> where
    P: Fn(NumberOp, &N, &N) -> bool,
    A: Fn(NumberOp, &N, &N) -> Option<N>,
    J: Fn(&N) -> String,
    E: Fn(&N, &N) -> bool,
 {
    let type_error = Err(RuntimeError::TypeError(operator));
    match (binary_rule(operator.ttype, l, r), l, r) {
        (BinaryAction::Numbers(o), ValueModel::Number(x), ValueModel::Number(y)) => if is_comparison(o) {
            Ok(ValueModel::Bool(compared(compare, o, x, y)))
        } else {
            match arithmetic(arith, o, x, y) {
                Some(n) => Ok(ValueModel::Number(n)),
                None => Err(RuntimeError::DivByZero(operator)),
            }
        },
        (BinaryAction::JoinStrings, ValueModel::Str(x), ValueModel::Str(y)) => Ok(ValueModel::Str(x + y)),
        (BinaryAction::JoinStringNumber, ValueModel::Str(x), ValueModel::Number(y)) => Ok(
            ValueModel::Str(x + text_of(number_text, y)),
        ),
        (BinaryAction::JoinNumberString, ValueModel::Number(x), ValueModel::Str(y)) => Ok(
            ValueModel::Str(text_of(number_text, x) + y),
        ),
        (BinaryAction::Equality { negate }, _, _) => {
            let equal = match (equality_rule(l, r), l, r) {
                (Some(b), _, _) => b,
                (None, ValueModel::Number(x), ValueModel::Number(y)) => numbers_equal_spec(numbers_equal, x, y),
                _ => false,
            };
            Ok(ValueModel::Bool(equal != negate))
        },
        _ => type_error,
    }
}

/// The value of an expression where the variables are those of `scopes`:
/// operands are evaluated left to right and the first error stops the
/// evaluation.
pub open spec fn eval_expr<N, C, P, A, G, J, E>(
    numeral: C,
    compare: P,
    arith: A,
    negate: G,
    number_text: J,
    numbers_equal: E,
    scopes: Scopes<N>,
    x: Expr,
) -> Result<ValueModel<N>, RuntimeError> where
    C: Fn(&String) -> N,
    P: Fn(NumberOp, &N, &N) -> bool,
    A: Fn(NumberOp, &N, &N) -> Option<N>,
    G: Fn(&N) -> N,
    J: Fn(&N) -> String,
    E: Fn(&N, &N) -> bool,

    decreases x,
{
    match x {
        Expr::Literal(l) => Ok(literal_value(numeral, l)),
        Expr::Grouping(inner) => eval_expr(numeral, compare, arith, negate, number_text, numbers_equal, scopes, *inner),
        Expr::Variable(var) => match lookup(scopes, var.lexeme@) {
            Some(v) => Ok(v@),
            None => Err(RuntimeError::UndefinedVariable(var)),
        },
        Expr::Unary { operator, right } => match eval_expr(
            numeral,
            compare,
            arith,
            negate,
            number_text,
            numbers_equal,
            scopes,
            *right,
        ) {
            Err(e) => Err(e),
            Ok(v) => match (unary_rule(operator.ttype, v), v) {
                (UnaryAction::Not(b), _) => Ok(ValueModel::Bool(b)),
                (UnaryAction::Negate, ValueModel::Number(n)) => Ok(ValueModel::Number(negated(negate, n))),
                _ => Err(RuntimeError::TypeError(operator)),
            },
        },
        Expr::Binary { left, operator, right } => match eval_expr(
            numeral,
            compare,
            arith,
            negate,
            number_text,
            numbers_equal,
            scopes,
            *left,
        ) {
            Err(e) => Err(e),
            Ok(l) => match eval_expr(numeral, compare, arith, negate, number_text, numbers_equal, scopes, *right) {
                Err(e) => Err(e),
                Ok(r) => binary_value(compare, arith, number_text, numbers_equal, operator, l, r),
            },
        },
    }
}

/// Evaluates `expr` where the variables are those of `env`, with the given
/// operations on numbers.
pub fn evaluate<N: Copy, C, P, A, G, J, E>(
    env: &Environment<RuntimeValue<N>>,
    expr: &Expr,
    numeral: &C,
    compare: &P,
    arith: &A,
    negate: &G,
    number_text: &J,
    numbers_equal: &E,
) -> (r: Result<RuntimeValue<N>, RuntimeError>) where
    C: Fn(&String) -> N,
    P: Fn(NumberOp, &N, &N) -> bool,
    A: Fn(NumberOp, &N, &N) -> Option<N>,
    G: Fn(&N) -> N,
    J: Fn(&N) -> String,
    E: Fn(&N, &N) -> bool,

    requires
        env.wf(),
        number_ops_ready(*numeral, *compare, *arith, *negate, *number_text, *numbers_equal),
    ensures
        result_model(r) == eval_expr(
            *numeral,
            *compare,
            *arith,
            *negate,
            *number_text,
            *numbers_equal,
            env.scopes(),
            *expr,
        ),
    decreases expr,
{
    match expr {
        Expr::Literal(literal) => match literal {
            Literal::Number(t) => {
                let n = numeral(t);
                proof {
                    assert(call_ensures(*numeral, (t,), numeral_value(*numeral, *t)));
                }
                Ok(RuntimeValue::Number(n))
            },
            Literal::Bool(b) => Ok(RuntimeValue::Bool(*b)),
            Literal::Str(s) => Ok(RuntimeValue::Str(s.clone())),
            _ => Ok(RuntimeValue::Nil),
        },
        Expr::Grouping(inner) => evaluate(env, &**inner, numeral, compare, arith, negate, number_text, numbers_equal),
        Expr::Variable(var) => {
            let r = env.get(var);
            proof {
                if let Some(v) = lookup(env.scopes(), var.lexeme@) {
                    law_value_clone_is_exact(v, r->Ok_0);
                }
            }
            r
        },
        Expr::Unary { operator, right } => {
            let v = match evaluate(env, &**right, numeral, compare, arith, negate, number_text, numbers_equal) {
                Ok(v) => v,
                Err(e) => {
                    return Err(e);
                },
            };
            match unary_action(operator.ttype, &v) {
                UnaryAction::Not(b) => Ok(RuntimeValue::Bool(b)),
                UnaryAction::Negate => match &v {
                    RuntimeValue::Number(x) => {
                        let n = negate(x);
                        proof {
                            assert(call_ensures(*negate, (x,), negated(*negate, *x)));
                        }
                        Ok(RuntimeValue::Number(n))
                    },
                    _ => Err(RuntimeError::TypeError(share(operator))),
                },
                UnaryAction::TypeError => Err(RuntimeError::TypeError(share(operator))),
            }
        },
        Expr::Binary { left, operator, right } => {
            let l = match evaluate(env, &**left, numeral, compare, arith, negate, number_text, numbers_equal) {
                Ok(v) => v,
                Err(e) => {
                    return Err(e);
                },
            };
            let r = match evaluate(env, &**right, numeral, compare, arith, negate, number_text, numbers_equal) {
                Ok(v) => v,
                Err(e) => {
                    return Err(e);
                },
            };
            match (binary_action(operator.ttype, &l, &r), &l, &r) {
                (BinaryAction::Numbers(o), RuntimeValue::Number(x), RuntimeValue::Number(y)) => match o {
                    NumberOp::Greater | NumberOp::GreaterEqual | NumberOp::Less | NumberOp::LessEqual => {
                        let b = compare(o, x, y);
                        proof {
                            assert(call_ensures(*compare, (o, x, y), compared(*compare, o, *x, *y)));
                        }
                        Ok(RuntimeValue::Bool(b))
                    },
                    _ => {
                        let out = arith(o, x, y);
                        proof {
                            if o == NumberOp::Divide {
                                assert(call_ensures(*arith, (o, x, y), arithmetic(*arith, o, *x, *y)));
                            } else {
                                let n = choose|n: N| call_ensures(*arith, (o, x, y), Some(n));
                                assert(call_ensures(*arith, (o, x, y), Some(out->Some_0)));
                                assert(call_ensures(*arith, (o, x, y), Some(n)));
                            }
                        }
                        match out {
                            Some(n) => Ok(RuntimeValue::Number(n)),
                            None => Err(RuntimeError::DivByZero(share(operator))),
                        }
                    },
                },
                (BinaryAction::JoinStrings, RuntimeValue::Str(x), RuntimeValue::Str(y)) => {
                    let mut s = x.clone();
                    s.append(y.as_str());
                    Ok(RuntimeValue::Str(s))
                },
                (BinaryAction::JoinStringNumber, RuntimeValue::Str(x), RuntimeValue::Number(y)) => {
                    let t = number_text(y);
                    proof {
                        lemma_text_of(*number_text, *y, t);
                    }
                    let mut s = x.clone();
                    s.append(t.as_str());
                    Ok(RuntimeValue::Str(s))
                },
                (BinaryAction::JoinNumberString, RuntimeValue::Number(x), RuntimeValue::Str(y)) => {
                    let mut s = number_text(x);
                    proof {
                        lemma_text_of(*number_text, *x, s);
                    }
                    s.append(y.as_str());
                    Ok(RuntimeValue::Str(s))
                },
                (BinaryAction::Equality { negate: negated_op }, _, _) => {
                    let equal = match (values_equal(&l, &r), &l, &r) {
                        (Some(b), _, _) => b,
                        (None, RuntimeValue::Number(x), RuntimeValue::Number(y)) => {
                            let b = numbers_equal(x, y);
                            proof {
                                assert(call_ensures(*numbers_equal, (x, y), numbers_equal_spec(*numbers_equal, *x, *y)));
                            }
                            b
                        },
                        _ => false,
                    };
                    Ok(RuntimeValue::Bool(equal != negated_op))
                },
                _ => Err(RuntimeError::TypeError(share(operator))),
            }
        },
    }
}

} // verus!

