//! The evaluator: tree-walks a syntax tree against an arena of scopes.
//!
//! The environment is an arena of scope records addressed by stable handles
//! (indices): each scope holds a local name-to-value table and at most one
//! parent handle, always smaller than its own, so chains are finite and
//! cycle-free.  Evaluation is modelled by the spec function
//! [`eval_obj_spec`], a definitional interpreter over the object model: it
//! returns the resulting value (or the fatal error met first) together with
//! the environment after the walk.  Because the source language can recurse
//! without bound through function calls, both the model and the executable
//! evaluator carry an explicit call-depth budget; exceeding it is reported
//! as an error rather than exhausting the host stack.

use vstd::prelude::*;

use crate::fp::{
    add_bits, cmp_bits, div_bits, float_add_bits, float_cmp_bits, float_div_bits, float_mul_bits,
    float_of_int, float_sub_bits, float_is_zero, int_to_float_bits, is_float_zero, mul_bits,
    sub_bits,
};
use crate::lexer::str_eq;
use crate::parser::{
    obj_view, obj_view_seq, parse, parse_program, lemma_obj_view_seq, str_views, ObjV, Object,
    ParseErrKind, ParseError,
};

verus! {

use vstd::string::StrSliceExecFns;
use vstd::string::StringExecFns;

/// The greatest function-call nesting the evaluator will walk before it
/// reports a depth error instead of exhausting the host stack.
pub const MAX_DEPTH: u32 = 1000;

/// One scope record: a local table and at most one parent handle.
struct Scope {
    parent: Option<usize>,
    vars: Vec<(String, Object)>,
}

/// The model of one scope.
pub struct ScopeV {
    pub parent: Option<int>,
    pub vars: Map<Seq<char>, ObjV>,
}

/// The model of a local table: later entries win, though the table never
/// holds a name twice.
pub open spec fn vars_map(s: Seq<(String, Object)>) -> Map<Seq<char>, ObjV>
    decreases s.len(),
{
    if s.len() == 0 {
        Map::empty()
    } else {
        vars_map(s.drop_last()).insert(s.last().0@, s.last().1@)
    }
}

spec fn scope_view(s: Scope) -> ScopeV {
    ScopeV {
        parent: match s.parent {
            Some(p) => Some(p as int),
            None => None,
        },
        vars: vars_map(s.vars@),
    }
}

/// No name occurs twice in a local table.
spec fn unique_keys(s: Seq<(String, Object)>) -> bool {
    forall|a: int, b: int| 0 <= a < b < s.len() ==> (#[trigger] s[a]).0@ != (#[trigger] s[b]).0@
}

/// An arena of scope records; handle 0 is the root scope of a session.
pub struct Env {
    scopes: Vec<Scope>,
}

impl View for Env {
    type V = Seq<ScopeV>;

    closed spec fn view(&self) -> Seq<ScopeV> {
        Seq::new(self.scopes@.len(), |i: int| scope_view(self.scopes@[i]))
    }
}

impl Env {
    /// Every scope's parent handle is smaller than its own (so lookup
    /// chains terminate at a parentless root) and local tables never repeat
    /// a name.  The arena always holds at least the root scope.  `new`
    /// establishes this and every method preserves it.
    pub closed spec fn wf(self) -> bool {
        &&& self.scopes@.len() >= 1
        &&& forall|i: int|
            0 <= i < self.scopes@.len() ==> match (#[trigger] self.scopes@[i]).parent {
                Some(p) => p < i,
                None => true,
            }
        &&& forall|i: int|
            0 <= i < self.scopes@.len() ==> unique_keys((#[trigger] self.scopes@[i]).vars@)
    }
}

/// Resolution of a name from a scope: the local table first, else the
/// parent chain, exhausted at a parentless root.  A handle outside the
/// arena, or a parent handle not below its child, resolves to nothing; the
/// arena's invariant keeps both from arising.
pub open spec fn lookup(env: Seq<ScopeV>, scope: int, name: Seq<char>) -> Option<ObjV>
    decreases scope,
{
    if scope < 0 || scope >= env.len() {
        None
    } else if env[scope].vars.contains_key(name) {
        Some(env[scope].vars[name])
    } else {
        match env[scope].parent {
            Some(p) => if 0 <= p < scope {
                lookup(env, p, name)
            } else {
                None
            },
            None => None,
        }
    }
}

/// The arena after binding `name` to `val` in the local table of `scope`
/// alone; an invalid handle changes nothing.
pub open spec fn scope_set(env: Seq<ScopeV>, scope: int, name: Seq<char>, val: ObjV) -> Seq<
    ScopeV,
> {
    if 0 <= scope < env.len() {
        env.update(
            scope,
            ScopeV { parent: env[scope].parent, vars: env[scope].vars.insert(name, val) },
        )
    } else {
        env
    }
}

/// A fatal evaluation failure, per the error taxonomy.
#[derive(Debug, PartialEq)]
pub enum EvalError {
    /// The program text did not parse.
    Parse(ParseError),
    /// An undefined symbol or function name.
    UndefinedName(String),
    /// Wrong operand types, a non-boolean condition, a malformed binding
    /// target, or a call of a value that is not a function.
    TypeMismatch,
    /// Fewer call arguments than formal parameters.
    Arity,
    /// Division by an exact zero, or an integer result out of range.
    Arithmetic,
    /// An unknown keyword or operator, or an unimplemented operation.
    Unsupported(String),
    /// A structurally invalid or empty form.
    Invalid,
    /// The call-depth budget was exhausted.
    DepthExceeded,
}

/// The model of an evaluation failure.
pub enum EvalErrV {
    Parse(ParseErrKind),
    UndefinedName(Seq<char>),
    TypeMismatch,
    Arity,
    Arithmetic,
    Unsupported(Seq<char>),
    Invalid,
    Depth,
}

impl View for EvalError {
    type V = EvalErrV;

    open spec fn view(&self) -> EvalErrV {
        match self {
            EvalError::Parse(e) => EvalErrV::Parse(e@),
            EvalError::UndefinedName(s) => EvalErrV::UndefinedName(s@),
            EvalError::TypeMismatch => EvalErrV::TypeMismatch,
            EvalError::Arity => EvalErrV::Arity,
            EvalError::Arithmetic => EvalErrV::Arithmetic,
            EvalError::Unsupported(s) => EvalErrV::Unsupported(s@),
            EvalError::Invalid => EvalErrV::Invalid,
            EvalError::DepthExceeded => EvalErrV::Depth,
        }
    }
}

/// The text of an evaluation failure's message.
pub open spec fn eval_message(e: EvalErrV) -> Seq<char> {
    match e {
        EvalErrV::Parse(k) => crate::parser::parse_message(k),
        EvalErrV::UndefinedName(s) => "Undefined symbol: "@ + s,
        EvalErrV::TypeMismatch => "Type error: operand or form of the wrong kind"@,
        EvalErrV::Arity => "Arity error: too few call arguments"@,
        EvalErrV::Arithmetic => "Arithmetic error: division by zero or out of range"@,
        EvalErrV::Unsupported(s) => "Unsupported operation: "@ + s,
        EvalErrV::Invalid => "Invalid expression"@,
        EvalErrV::Depth => "Recursion depth exceeded"@,
    }
}

impl EvalError {
    /// A descriptive message for the shell.
    pub fn message(&self) -> (m: String)
        ensures
            m@ == eval_message(self@),
    {
        match self {
            EvalError::Parse(e) => e.message(),
            EvalError::UndefinedName(s) => String::from_str("Undefined symbol: ").concat(
                s.as_str(),
            ),
            EvalError::TypeMismatch => "Type error: operand or form of the wrong kind".to_owned(),
            EvalError::Arity => "Arity error: too few call arguments".to_owned(),
            EvalError::Arithmetic => "Arithmetic error: division by zero or out of range".to_owned(),
            EvalError::Unsupported(s) => String::from_str("Unsupported operation: ").concat(
                s.as_str(),
            ),
            EvalError::Invalid => "Invalid expression".to_owned(),
            EvalError::DepthExceeded => "Recursion depth exceeded".to_owned(),
        }
    }
}

/// Truncating (round toward zero) integer division, as the host's `/`
/// performs it on machine integers.
pub open spec fn tdiv(x: int, d: int) -> int {
    if x == 0 {
        0
    } else if x > 0 && d > 0 {
        x / d
    } else if x < 0 && d < 0 {
        ((x * -1) / (d * -1))
    } else if x < 0 {
        ((x * -1) / d) * -1
    } else {
        (x / (d * -1)) * -1
    }
}

/// An integer result when it fits in 64 signed bits, else an arithmetic
/// error.
pub open spec fn int_result(v: int) -> Result<ObjV, EvalErrV> {
    if i64::MIN <= v <= i64::MAX {
        Ok(ObjV::Integer(v as i64))
    } else {
        Err(EvalErrV::Arithmetic)
    }
}

/// The IEEE 754 less-than on bit patterns.
pub open spec fn float_lt(a: u64, b: u64) -> bool {
    float_cmp_bits(a, b) == Some(core::cmp::Ordering::Less)
}

/// The IEEE 754 greater-than on bit patterns.
pub open spec fn float_gt(a: u64, b: u64) -> bool {
    float_cmp_bits(a, b) == Some(core::cmp::Ordering::Greater)
}

/// One strictly binary operator applied to two fully evaluated operands.
/// Operands are promoted to float when the types are mixed; division by an
/// exact zero (integer or float) and integer results out of range are
/// arithmetic errors; a non-numeric operand is a type error; an operator
/// outside `+ - * / < >` is unsupported.
pub open spec fn apply_binop(op: Seq<char>, a: ObjV, b: ObjV) -> Result<ObjV, EvalErrV> {
    if op == "+"@ {
        match (a, b) {
            (ObjV::Integer(l), ObjV::Integer(r)) => int_result(l + r),
            (ObjV::Float(l), ObjV::Float(r)) => Ok(ObjV::Float(float_add_bits(l, r))),
            (ObjV::Integer(l), ObjV::Float(r)) => Ok(ObjV::Float(float_add_bits(float_of_int(l), r))),
            (ObjV::Float(l), ObjV::Integer(r)) => Ok(ObjV::Float(float_add_bits(l, float_of_int(r)))),
            _ => Err(EvalErrV::TypeMismatch),
        }
    } else if op == "-"@ {
        match (a, b) {
            (ObjV::Integer(l), ObjV::Integer(r)) => int_result(l - r),
            (ObjV::Float(l), ObjV::Float(r)) => Ok(ObjV::Float(float_sub_bits(l, r))),
            (ObjV::Integer(l), ObjV::Float(r)) => Ok(ObjV::Float(float_sub_bits(float_of_int(l), r))),
            (ObjV::Float(l), ObjV::Integer(r)) => Ok(ObjV::Float(float_sub_bits(l, float_of_int(r)))),
            _ => Err(EvalErrV::TypeMismatch),
        }
    } else if op == "*"@ {
        match (a, b) {
            (ObjV::Integer(l), ObjV::Integer(r)) => int_result(l * r),
            (ObjV::Float(l), ObjV::Float(r)) => Ok(ObjV::Float(float_mul_bits(l, r))),
            (ObjV::Integer(l), ObjV::Float(r)) => Ok(ObjV::Float(float_mul_bits(float_of_int(l), r))),
            (ObjV::Float(l), ObjV::Integer(r)) => Ok(ObjV::Float(float_mul_bits(l, float_of_int(r)))),
            _ => Err(EvalErrV::TypeMismatch),
        }
    } else if op == "/"@ {
        match (a, b) {
            (ObjV::Integer(l), ObjV::Integer(r)) => if r == 0 {
                Err(EvalErrV::Arithmetic)
            } else {
                int_result(tdiv(l as int, r as int))
            },
            (ObjV::Float(l), ObjV::Float(r)) => if is_float_zero(r) {
                Err(EvalErrV::Arithmetic)
            } else {
                Ok(ObjV::Float(float_div_bits(l, r)))
            },
            (ObjV::Integer(l), ObjV::Float(r)) => if is_float_zero(r) {
                Err(EvalErrV::Arithmetic)
            } else {
                Ok(ObjV::Float(float_div_bits(float_of_int(l), r)))
            },
            (ObjV::Float(l), ObjV::Integer(r)) => if r == 0 {
                Err(EvalErrV::Arithmetic)
            } else {
                Ok(ObjV::Float(float_div_bits(l, float_of_int(r))))
            },
            _ => Err(EvalErrV::TypeMismatch),
        }
    } else if op == "<"@ {
        match (a, b) {
            (ObjV::Integer(l), ObjV::Integer(r)) => Ok(ObjV::Bool(l < r)),
            (ObjV::Float(l), ObjV::Float(r)) => Ok(ObjV::Bool(float_lt(l, r))),
            (ObjV::Integer(l), ObjV::Float(r)) => Ok(ObjV::Bool(float_lt(float_of_int(l), r))),
            (ObjV::Float(l), ObjV::Integer(r)) => Ok(ObjV::Bool(float_lt(l, float_of_int(r)))),
            _ => Err(EvalErrV::TypeMismatch),
        }
    } else if op == ">"@ {
        match (a, b) {
            (ObjV::Integer(l), ObjV::Integer(r)) => Ok(ObjV::Bool(l > r)),
            (ObjV::Float(l), ObjV::Float(r)) => Ok(ObjV::Bool(float_gt(l, r))),
            (ObjV::Integer(l), ObjV::Float(r)) => Ok(ObjV::Bool(float_gt(float_of_int(l), r))),
            (ObjV::Float(l), ObjV::Integer(r)) => Ok(ObjV::Bool(float_gt(l, float_of_int(r)))),
            _ => Err(EvalErrV::TypeMismatch),
        }
    } else {
        Err(EvalErrV::Unsupported(op))
    }
}

/// The parameter names of a lambda form: all items must be symbols.
pub open spec fn params_of(ps: Seq<ObjV>) -> Option<Seq<Seq<char>>>
    decreases ps.len(),
{
    if ps.len() == 0 {
        Some(Seq::empty())
    } else {
        match ps[0] {
            ObjV::Symbol(s) => match params_of(ps.subrange(1, ps.len() as int)) {
                Some(rest) => Some(seq![s] + rest),
                None => None,
            },
            _ => None,
        }
    }
}

/// The definitional interpreter: the value (or fatal error) of one object
/// in an environment, together with the environment after the walk.
///
/// Dispatch is purely by tag.  Atoms evaluate to themselves; a symbol
/// resolves along the scope chain; a list dispatches on its head (keyword
/// forms, strictly binary operators, and function calls); every other shape
/// is a fatal error.  A function call evaluates the arguments in the
/// caller's scope, binds them in order in a fresh scope chained to the
/// *calling* scope (dynamic scoping: the lambda does not capture its
/// definition site), and walks the body there with one unit less of the
/// call-depth budget.
pub open spec fn eval_obj_spec(obj: ObjV, env: Seq<ScopeV>, scope: int, depth: nat) -> (Result<
    ObjV,
    EvalErrV,
>, Seq<ScopeV>)
    decreases depth, obj, 3int, 0int,
{
    match obj {
        ObjV::Void => (Ok(ObjV::Void), env),
        ObjV::Bool(b) => (Ok(ObjV::Bool(b)), env),
        ObjV::Integer(i) => (Ok(ObjV::Integer(i)), env),
        ObjV::Float(f) => (Ok(ObjV::Float(f)), env),
        ObjV::Str(s) => (Ok(ObjV::Str(s)), env),
        ObjV::Symbol(s) => match lookup(env, scope, s) {
            Some(v) => (Ok(v), env),
            None => (Err(EvalErrV::UndefinedName(s)), env),
        },
        ObjV::ListData(_) => (Err(EvalErrV::Unsupported("list data"@)), env),
        ObjV::Lambda(_, _) => (Ok(ObjV::Void), env),
        ObjV::Keyword(_) => (Err(EvalErrV::Invalid), env),
        ObjV::BinaryOp(_) => (Err(EvalErrV::Invalid), env),
        ObjV::List(l) => {
            if l.len() == 0 {
                (Err(EvalErrV::Invalid), env)
            } else {
                match l[0] {
                    ObjV::Keyword(kw) => eval_keyword_spec(kw, l, env, scope, depth),
                    ObjV::BinaryOp(op) => eval_binop_form_spec(op, l, env, scope, depth),
                    ObjV::Symbol(name) => eval_call_spec(name, l, env, scope, depth),
                    _ => (Err(EvalErrV::Invalid), env),
                }
            }
        },
    }
}

/// A list headed by a keyword: `begin`, `define`, `if` and `lambda` are the
/// supported forms; every other keyword is unsupported.
pub open spec fn eval_keyword_spec(
    kw: Seq<char>,
    l: Seq<ObjV>,
    env: Seq<ScopeV>,
    scope: int,
    depth: nat,
) -> (Result<ObjV, EvalErrV>, Seq<ScopeV>)
    decreases depth, l, 2int, 0int,
    when l.len() >= 1
{
    if kw == "begin"@ {
        eval_begin_spec(l, 1, ObjV::Void, env, scope, depth)
    } else if kw == "define"@ {
        if l.len() < 2 {
            (Err(EvalErrV::Invalid), env)
        } else {
            match l[1] {
                ObjV::Symbol(name) => if l.len() < 3 {
                    (Err(EvalErrV::Invalid), env)
                } else {
                    match eval_obj_spec(l[2], env, scope, depth) {
                        (Ok(v), env1) => (Ok(ObjV::Void), scope_set(env1, scope, name, v)),
                        (Err(e), env1) => (Err(e), env1),
                    }
                },
                _ => (Err(EvalErrV::TypeMismatch), env),
            }
        }
    } else if kw == "if"@ {
        if l.len() < 2 {
            (Err(EvalErrV::Invalid), env)
        } else {
            match eval_obj_spec(l[1], env, scope, depth) {
                (Ok(cond), env1) => match cond {
                    ObjV::Bool(b) => if b {
                        if l.len() < 3 {
                            (Err(EvalErrV::Invalid), env1)
                        } else {
                            eval_obj_spec(l[2], env1, scope, depth)
                        }
                    } else {
                        if l.len() < 4 {
                            (Err(EvalErrV::Invalid), env1)
                        } else {
                            eval_obj_spec(l[3], env1, scope, depth)
                        }
                    },
                    _ => (Err(EvalErrV::TypeMismatch), env1),
                },
                (Err(e), env1) => (Err(e), env1),
            }
        }
    } else if kw == "lambda"@ {
        if l.len() < 2 {
            (Err(EvalErrV::Invalid), env)
        } else {
            match l[1] {
                ObjV::List(ps) => match params_of(ps) {
                    Some(params) => if l.len() < 3 {
                        (Err(EvalErrV::Invalid), env)
                    } else {
                        match l[2] {
                            ObjV::List(body) => (Ok(ObjV::Lambda(params, body)), env),
                            _ => (Err(EvalErrV::TypeMismatch), env),
                        }
                    },
                    None => (Err(EvalErrV::TypeMismatch), env),
                },
                _ => (Err(EvalErrV::TypeMismatch), env),
            }
        }
    } else {
        (Err(EvalErrV::Unsupported(kw)), env)
    }
}

/// A `begin` tail: the remaining items evaluate in order in the same
/// scope, and all but the last result are discarded (an empty tail yields
/// what was accumulated so far, initially `Void`).
pub open spec fn eval_begin_spec(
    l: Seq<ObjV>,
    k: int,
    last: ObjV,
    env: Seq<ScopeV>,
    scope: int,
    depth: nat,
) -> (Result<ObjV, EvalErrV>, Seq<ScopeV>)
    decreases depth, l, 1int, l.len() - k,
    when 0 <= k <= l.len()
{
    if k >= l.len() {
        (Ok(last), env)
    } else {
        match eval_obj_spec(l[k], env, scope, depth) {
            (Ok(v), env1) => eval_begin_spec(l, k + 1, v, env1, scope, depth),
            (Err(e), env1) => (Err(e), env1),
        }
    }
}

/// A list headed by a one-character operator: exactly two operands, both
/// fully evaluated (no short-circuiting), then combined by `apply_binop`.
pub open spec fn eval_binop_form_spec(
    op: Seq<char>,
    l: Seq<ObjV>,
    env: Seq<ScopeV>,
    scope: int,
    depth: nat,
) -> (Result<ObjV, EvalErrV>, Seq<ScopeV>)
    decreases depth, l, 2int, 0int,
{
    if l.len() != 3 {
        (Err(EvalErrV::Invalid), env)
    } else {
        match eval_obj_spec(l[1], env, scope, depth) {
            (Ok(a), env1) => match eval_obj_spec(l[2], env1, scope, depth) {
                (Ok(b), env2) => (apply_binop(op, a, b), env2),
                (Err(e), env2) => (Err(e), env2),
            },
            (Err(e), env1) => (Err(e), env1),
        }
    }
}

/// A function call: the head symbol must resolve to a lambda; a fresh scope
/// is chained to the calling scope, the arguments bind into it one at a
/// time, and the lambda body evaluates there.
pub open spec fn eval_call_spec(
    name: Seq<char>,
    l: Seq<ObjV>,
    env: Seq<ScopeV>,
    scope: int,
    depth: nat,
) -> (Result<ObjV, EvalErrV>, Seq<ScopeV>)
    decreases depth, l, 2int, 0int,
{
    match lookup(env, scope, name) {
        None => (Err(EvalErrV::UndefinedName(name)), env),
        Some(v) => match v {
            ObjV::Lambda(params, body) => {
                let handle = env.len() as int;
                let env1 = env.push(ScopeV { parent: Some(scope), vars: Map::empty() });
                match bind_args_spec(l, params, 0, env1, scope, handle, depth) {
                    (Ok(u), env2) => if depth == 0 {
                        (Err(EvalErrV::Depth), env2)
                    } else {
                        eval_obj_spec(ObjV::List(body), env2, handle, (depth - 1) as nat)
                    },
                    (Err(e), env2) => (Err(e), env2),
                }
            },
            _ => (Err(EvalErrV::TypeMismatch), env),
        },
    }
}

/// Binds the formal parameters from `k` on: each actual argument evaluates
/// in the *caller's* scope and binds at once in the call scope, in order
/// (on a repeated name the last binding wins).  Running out of actual
/// arguments is a fatal arity error.
pub open spec fn bind_args_spec(
    l: Seq<ObjV>,
    params: Seq<Seq<char>>,
    k: int,
    env: Seq<ScopeV>,
    caller: int,
    handle: int,
    depth: nat,
) -> (Result<(), EvalErrV>, Seq<ScopeV>)
    decreases depth, l, 1int, params.len() - k,
    when 0 <= k <= params.len()
{
    if k >= params.len() {
        (Ok(()), env)
    } else if k + 1 >= l.len() {
        (Err(EvalErrV::Arity), env)
    } else {
        match eval_obj_spec(l[k + 1], env, caller, depth) {
            (Ok(v), env1) => bind_args_spec(
                l,
                params,
                k + 1,
                scope_set(env1, handle, params[k], v),
                caller,
                handle,
                depth,
            ),
            (Err(e), env1) => (Err(e), env1),
        }
    }
}

/// The model of the evaluation entry point: the source is re-tokenized and
/// re-parsed from scratch, and the tree walks from the root scope with a
/// full depth budget.
pub open spec fn eval_program(s: Seq<char>, env: Seq<ScopeV>) -> (Result<ObjV, EvalErrV>, Seq<
    ScopeV,
>) {
    match parse_program(s) {
        Err(k) => (Err(EvalErrV::Parse(k)), env),
        Ok(ast) => eval_obj_spec(ast, env, 0, MAX_DEPTH as nat),
    }
}

/// A name present in a table is mapped to its value there.
proof fn lemma_vars_map_index(s: Seq<(String, Object)>, j: int)
    requires
        unique_keys(s),
        0 <= j < s.len(),
    ensures
        vars_map(s).contains_key(s[j].0@),
        vars_map(s)[s[j].0@] == s[j].1@,
    decreases s.len(),
{
    if j < s.len() - 1 {
        assert(unique_keys(s.drop_last())) by {
            assert(forall|a: int|
                0 <= a < s.len() - 1 ==> #[trigger] s.drop_last()[a] == s[a]);
        }
        lemma_vars_map_index(s.drop_last(), j);
        assert(s.drop_last()[j] == s[j]);
        assert(s[s.len() - 1].0@ != s[j].0@);
    }
}

/// A name absent from a table is absent from its map.
proof fn lemma_vars_map_absent(s: Seq<(String, Object)>, k: Seq<char>)
    requires
        forall|j: int| 0 <= j < s.len() ==> (#[trigger] s[j]).0@ != k,
    ensures
        !vars_map(s).contains_key(k),
    decreases s.len(),
{
    if s.len() > 0 {
        assert(forall|j: int|
            0 <= j < s.len() - 1 ==> (#[trigger] s.drop_last()[j]).0@ != k);
        lemma_vars_map_absent(s.drop_last(), k);
    }
}

/// Appending a fresh pair is insertion into the map.
proof fn lemma_vars_map_push(s: Seq<(String, Object)>, pair: (String, Object))
    ensures
        vars_map(s.push(pair)) == vars_map(s).insert(pair.0@, pair.1@),
{
    assert(s.push(pair).drop_last() =~= s);
    assert(s.push(pair).last() == pair);
}

/// Replacing the pair that holds a name is insertion into the map.
proof fn lemma_vars_map_update(s: Seq<(String, Object)>, j: int, pair: (String, Object))
    requires
        unique_keys(s),
        0 <= j < s.len(),
        pair.0@ == s[j].0@,
    ensures
        vars_map(s.update(j, pair)) == vars_map(s).insert(pair.0@, pair.1@),
    decreases s.len(),
{
    let t = s.update(j, pair);
    if j == s.len() - 1 {
        assert(t.drop_last() =~= s.drop_last());
        assert(t.last() == pair);
        assert(vars_map(t) =~= vars_map(s).insert(pair.0@, pair.1@));
    } else {
        assert(unique_keys(s.drop_last())) by {
            assert(forall|a: int|
                0 <= a < s.len() - 1 ==> #[trigger] s.drop_last()[a] == s[a]);
        }
        assert(s.drop_last()[j] == s[j]);
        lemma_vars_map_update(s.drop_last(), j, pair);
        assert(t.drop_last() =~= s.drop_last().update(j, pair));
        assert(t.last() == s.last());
        assert(s[s.len() - 1].0@ != s[j].0@);
        assert(vars_map(t) =~= vars_map(s).insert(pair.0@, pair.1@));
    }
}

/// The position of a name in a local table, if it is there.
fn find_key(vars: &Vec<(String, Object)>, name: &str) -> (r: Option<usize>)
    ensures
        match r {
            Some(j) => j < vars@.len() && vars@[j as int].0@ == name@,
            None => forall|jj: int| 0 <= jj < vars@.len() ==> (#[trigger] vars@[jj]).0@ != name@,
        },
{
    let n = vars.len();
    let mut j: usize = 0;
    while j < n
        invariant
            j <= n,
            n == vars@.len(),
            forall|jj: int| 0 <= jj < j ==> (#[trigger] vars@[jj]).0@ != name@,
        decreases n - j,
    {
        if str_eq(name, vars[j].0.as_str()) {
            return Some(j);
        }
        j = j + 1;
    }
    None
}

impl Env {
    /// A fresh session environment: an arena holding one parentless, empty
    /// root scope, whose handle is 0.
    pub fn new() -> (env: Env)
        ensures
            env.wf(),
            env@.len() == 1,
            env@[0].parent is None,
            env@[0].vars == Map::<Seq<char>, ObjV>::empty(),
    {
        let mut scopes: Vec<Scope> = Vec::new();
        scopes.push(Scope { parent: None, vars: Vec::new() });
        Env { scopes }
    }

    /// Chains a fresh, empty scope under `parent` and returns its handle.
    pub fn extend(&mut self, parent: usize) -> (h: usize)
        requires
            old(self).wf(),
            parent < old(self)@.len(),
        ensures
            final(self).wf(),
            h == old(self)@.len(),
            final(self)@ == old(self)@.push(
                ScopeV { parent: Some(parent as int), vars: Map::<Seq<char>, ObjV>::empty() },
            ),
    {
        let h = self.scopes.len();
        self.scopes.push(Scope { parent: Some(parent), vars: Vec::new() });
        proof {
            assert(final(self)@ =~= old(self)@.push(
                ScopeV { parent: Some(parent as int), vars: Map::<Seq<char>, ObjV>::empty() },
            ));
        }
        h
    }

    /// Looks a name up from `scope`: locally first, else along the parent
    /// chain; nothing when the chain is exhausted (or the handle invalid).
    pub fn get(&self, scope: usize, name: &str) -> (r: Option<Object>)
        requires
            self.wf(),
        ensures
            match r {
                Some(o) => lookup(self@, scope as int, name@) == Some(o@),
                None => lookup(self@, scope as int, name@) is None,
            },
    {
        let mut cur = scope;
        loop
            invariant
                self.wf(),
                lookup(self@, scope as int, name@) == lookup(self@, cur as int, name@),
            decreases cur,
        {
            if cur >= self.scopes.len() {
                return None;
            }
            match find_key(&self.scopes[cur].vars, name) {
                Some(j) => {
                    proof {
                        lemma_vars_map_index(self.scopes@[cur as int].vars@, j as int);
                    }
                    let found = self.scopes[cur].vars[j].1.duplicate();
                    return Some(found);
                },
                None => {
                    proof {
                        lemma_vars_map_absent(self.scopes@[cur as int].vars@, name@);
                    }
                },
            }
            match self.scopes[cur].parent {
                Some(p) => {
                    cur = p;
                },
                None => {
                    return None;
                },
            }
        }
    }

    /// Inserts or overwrites a binding in the local table of `scope` alone,
    /// never touching an ancestor; an invalid handle changes nothing.
    pub fn set(&mut self, scope: usize, name: &str, val: Object)
        requires
            old(self).wf(),
        ensures
            final(self).wf(),
            final(self)@ == scope_set(old(self)@, scope as int, name@, val@),
    {
        if scope >= self.scopes.len() {
            return;
        }
        let ghost old_vars = self.scopes@[scope as int].vars@;
        match find_key(&self.scopes[scope].vars, name) {
            Some(j) => {
                let pair = (name.to_owned(), val);
                proof {
                    lemma_vars_map_update(old_vars, j as int, pair);
                }
                let sc = &mut self.scopes[scope];
                sc.vars.set(j, pair);
                proof {
                    assert(unique_keys(final(self).scopes@[scope as int].vars@)) by {
                        let t = old_vars.update(j as int, pair);
                        assert forall|a: int, b: int|
                            0 <= a < b < t.len() implies (#[trigger] t[a]).0@ != (
                        #[trigger] t[b]).0@ by {
                            assert(old_vars[a].0@ != old_vars[b].0@);
                            if a != j && b != j {
                                assert(t[a] == old_vars[a]);
                                assert(t[b] == old_vars[b]);
                            }
                        }
                    }
                    assert(final(self)@ =~= scope_set(old(self)@, scope as int, name@, val@));
                }
            },
            None => {
                let pair = (name.to_owned(), val);
                proof {
                    lemma_vars_map_push(old_vars, pair);
                }
                let sc = &mut self.scopes[scope];
                sc.vars.push(pair);
                proof {
                    assert(unique_keys(final(self).scopes@[scope as int].vars@)) by {
                        assert(forall|a: int|
                            0 <= a < old_vars.len() ==> #[trigger] old_vars.push(pair)[a]
                                == old_vars[a]);
                    }
                    assert(final(self)@ =~= scope_set(old(self)@, scope as int, name@, val@));
                }
            },
        }
    }

    /// Bulk shallow-merges the local bindings of the scope `other` into the
    /// scope `scope`, last-writer-wins on collision; ancestors are never
    /// touched, and an invalid handle changes nothing.
    pub fn update(&mut self, scope: usize, other: usize)
        requires
            old(self).wf(),
        ensures
            final(self).wf(),
            final(self)@ == scope_merge(old(self)@, scope as int, other as int),
    {
        if scope >= self.scopes.len() || other >= self.scopes.len() {
            return;
        }
        let pairs = clone_pairs(&self.scopes[other].vars);
        proof {
            lemma_vars_map_congruent(pairs@, self.scopes@[other as int].vars@);
        }
        let ghost startv = self@;
        let ghost base = self@[scope as int].vars;
        proof {
            assert(pairs@.subrange(0, 0) =~= Seq::<(String, Object)>::empty());
            assert(base.union_prefer_right(vars_map(Seq::empty())) =~= base);
        }
        let n = pairs.len();
        let mut k: usize = 0;
        while k < n
            invariant
                self.wf(),
                scope < self@.len(),
                n == pairs@.len(),
                k <= n,
                self@.len() == startv.len(),
                forall|i: int| 0 <= i < startv.len() && i != scope ==> self@[i] == startv[i],
                self@[scope as int].parent == startv[scope as int].parent,
                self@[scope as int].vars == base.union_prefer_right(
                    vars_map(pairs@.subrange(0, k as int)),
                ),
            decreases n - k,
        {
            let ghost pre = self@[scope as int].vars;
            let (name, val) = (pairs[k].0.clone(), pairs[k].1.duplicate());
            self.set(scope, name.as_str(), val);
            proof {
                assert(pairs@.subrange(0, k + 1).drop_last() =~= pairs@.subrange(0, k as int));
                assert(pairs@.subrange(0, k + 1).last() == pairs@[k as int]);
                assert(self@[scope as int].vars =~= base.union_prefer_right(
                    vars_map(pairs@.subrange(0, k + 1)),
                ));
                assert(self@ =~= startv.update(
                    scope as int,
                    ScopeV {
                        parent: startv[scope as int].parent,
                        vars: base.union_prefer_right(vars_map(pairs@.subrange(0, k + 1))),
                    },
                ));
            }
            k = k + 1;
        }
        proof {
            assert(pairs@.subrange(0, n as int) =~= pairs@);
            assert(final(self)@ =~= scope_merge(old(self)@, scope as int, other as int));
        }
    }
}

/// The arena after merging the local table of `other` into that of `scope`,
/// last-writer-wins; an invalid handle changes nothing.
pub open spec fn scope_merge(env: Seq<ScopeV>, scope: int, other: int) -> Seq<ScopeV> {
    if 0 <= scope < env.len() && 0 <= other < env.len() {
        env.update(
            scope,
            ScopeV {
                parent: env[scope].parent,
                vars: env[scope].vars.union_prefer_right(env[other].vars),
            },
        )
    } else {
        env
    }
}

/// A copy of a local table, pair for pair.
fn clone_pairs(v: &Vec<(String, Object)>) -> (r: Vec<(String, Object)>)
    ensures
        r@.len() == v@.len(),
        forall|j: int|
            0 <= j < v@.len() ==> (#[trigger] r@[j]).0@ == v@[j].0@ && r@[j].1@ == v@[j].1@,
{
    let mut out: Vec<(String, Object)> = Vec::new();
    let n = v.len();
    let mut k: usize = 0;
    while k < n
        invariant
            k <= n,
            n == v@.len(),
            out@.len() == k,
            forall|j: int|
                0 <= j < k ==> (#[trigger] out@[j]).0@ == v@[j].0@ && out@[j].1@ == v@[j].1@,
        decreases n - k,
    {
        let pair = (v[k].0.clone(), v[k].1.duplicate());
        out.push(pair);
        k = k + 1;
    }
    out
}

/// Tables whose pairs have the same models have the same map.
proof fn lemma_vars_map_congruent(a: Seq<(String, Object)>, b: Seq<(String, Object)>)
    requires
        a.len() == b.len(),
        forall|j: int| 0 <= j < a.len() ==> (#[trigger] a[j]).0@ == b[j].0@ && a[j].1@ == b[j].1@,
    ensures
        vars_map(a) == vars_map(b),
    decreases a.len(),
{
    if a.len() > 0 {
        assert(forall|j: int|
            0 <= j < a.len() - 1 ==> (#[trigger] a.drop_last()[j]) == a[j]
                && b.drop_last()[j] == b[j]);
        lemma_vars_map_congruent(a.drop_last(), b.drop_last());
        assert(vars_map(a) =~= vars_map(b));
    }
}

/// The model of an evaluation outcome.
pub open spec fn result_view(r: Result<Object, EvalError>) -> Result<ObjV, EvalErrV> {
    match r {
        Ok(o) => Ok(o@),
        Err(e) => Err(e@),
    }
}

/// The four dispatching keywords are pairwise distinct texts.
proof fn lemma_keyword_literals()
    ensures
        "define"@ != "begin"@,
        "if"@ != "begin"@,
        "if"@ != "define"@,
        "lambda"@ != "begin"@,
        "lambda"@ != "define"@,
        "lambda"@ != "if"@,
{
    reveal_strlit("begin");
    reveal_strlit("define");
    reveal_strlit("if");
    reveal_strlit("lambda");
    assert("begin"@.len() == 5);
    assert("define"@.len() == 6);
    assert("if"@.len() == 2);
    assert("lambda"@.len() == 6);
    assert("define"@[0] == 'd');
    assert("lambda"@[0] == 'l');
}

/// Re-tokenizes and re-parses the source string from scratch, then walks
/// the tree against the root scope of `env` with a full depth budget; the
/// result and the environment afterward are exactly those of the model
/// [`eval_program`].
pub fn eval(program: &str, env: &mut Env) -> (r: Result<Object, EvalError>)
    requires
        old(env).wf(),
    ensures
        final(env).wf(),
        eval_program(program@, old(env)@) == (result_view(r), final(env)@),
{
    match parse(program) {
        Err(e) => Err(EvalError::Parse(e)),
        Ok(ast) => eval_obj(&ast, env, 0, MAX_DEPTH),
    }
}

/// Walks one object; dispatch is purely by tag.
fn eval_obj(obj: &Object, env: &mut Env, scope: usize, depth: u32) -> (r: Result<Object, EvalError>)
    requires
        old(env).wf(),
        scope < old(env)@.len(),
    ensures
        final(env).wf(),
        final(env)@.len() >= old(env)@.len(),
        eval_obj_spec(obj@, old(env)@, scope as int, depth as nat) == (
            result_view(r),
            final(env)@,
        ),
    decreases depth, *obj, 3int, 0int,
{
    match obj {
        Object::Void => Ok(Object::Void),
        Object::Bool(b) => Ok(Object::Bool(*b)),
        Object::Integer(n) => Ok(Object::Integer(*n)),
        Object::Float(f) => Ok(Object::Float(*f)),
        Object::String(s) => Ok(Object::String(s.clone())),
        Object::Symbol(s) => eval_symbol(s, env, scope),
        Object::ListData(l) => eval_list_data(l),
        Object::Lambda(_, _) => Ok(Object::Void),
        Object::Keyword(_) => Err(EvalError::Invalid),
        Object::BinaryOp(_) => Err(EvalError::Invalid),
        Object::List(l) => eval_list(l, env, scope, depth),
    }
}

/// A data list cannot be evaluated yet.
fn eval_list_data(_list: &Vec<Object>) -> (r: Result<Object, EvalError>)
    ensures
        result_view(r) == Err::<ObjV, EvalErrV>(EvalErrV::Unsupported("list data"@)),
{
    Err(EvalError::Unsupported("list data".to_owned()))
}

/// Resolves a symbol along the scope chain.
fn eval_symbol(name: &String, env: &Env, scope: usize) -> (r: Result<Object, EvalError>)
    requires
        env.wf(),
    ensures
        match r {
            Ok(o) => lookup(env@, scope as int, name@) == Some(o@),
            Err(e) => lookup(env@, scope as int, name@) is None && e@ == EvalErrV::UndefinedName(
                name@,
            ),
        },
{
    match env.get(scope, name.as_str()) {
        Some(v) => Ok(v),
        None => Err(EvalError::UndefinedName(name.clone())),
    }
}

/// Dispatches a list form on its head.
fn eval_list(list: &Vec<Object>, env: &mut Env, scope: usize, depth: u32) -> (r: Result<
    Object,
    EvalError,
>)
    requires
        old(env).wf(),
        scope < old(env)@.len(),
    ensures
        final(env).wf(),
        final(env)@.len() >= old(env)@.len(),
        eval_obj_spec(ObjV::List(obj_view_seq(list@)), old(env)@, scope as int, depth as nat) == (
            result_view(r),
            final(env)@,
        ),
    decreases depth, *list, 2int, 1int,
{
    proof {
        lemma_obj_view_seq(list@);
    }
    if list.len() == 0 {
        return Err(EvalError::Invalid);
    }
    match &list[0] {
        Object::Keyword(_) => eval_keyword(list, env, scope, depth),
        Object::BinaryOp(_) => eval_binary_op(list, env, scope, depth),
        Object::Symbol(s) => eval_function_call(s, list, env, scope, depth),
        _ => Err(EvalError::Invalid),
    }
}

/// Dispatches on the keyword at the head of a form.
fn eval_keyword(list: &Vec<Object>, env: &mut Env, scope: usize, depth: u32) -> (r: Result<
    Object,
    EvalError,
>)
    requires
        old(env).wf(),
        scope < old(env)@.len(),
        list@.len() >= 1,
        obj_view(list@[0]) is Keyword,
    ensures
        final(env).wf(),
        final(env)@.len() >= old(env)@.len(),
        eval_obj_spec(ObjV::List(obj_view_seq(list@)), old(env)@, scope as int, depth as nat) == (
            result_view(r),
            final(env)@,
        ),
    decreases depth, *list, 2int, 0int,
{
    proof {
        lemma_keyword_literals();
        lemma_obj_view_seq(list@);
    }
    match &list[0] {
        Object::Keyword(kw) => {
            if str_eq(kw.as_str(), "begin") {
                eval_begin(list, env, scope, depth)
            } else if str_eq(kw.as_str(), "define") {
                eval_define(list, env, scope, depth)
            } else if str_eq(kw.as_str(), "if") {
                eval_if(list, env, scope, depth)
            } else if str_eq(kw.as_str(), "lambda") {
                eval_function_definition(list, env, scope, depth)
            } else {
                Err(EvalError::Unsupported(kw.clone()))
            }
        },
        _ => {
            proof {
                assert(false);
            }
            Err(EvalError::Invalid)
        },
    }
}

/// `begin`: the remaining items evaluate in order in the same scope and all
/// but the last result are discarded; an empty body yields `Void`.
fn eval_begin(list: &Vec<Object>, env: &mut Env, scope: usize, depth: u32) -> (r: Result<
    Object,
    EvalError,
>)
    requires
        old(env).wf(),
        scope < old(env)@.len(),
        list@.len() >= 1,
        obj_view(list@[0]) == ObjV::Keyword("begin"@),
    ensures
        final(env).wf(),
        final(env)@.len() >= old(env)@.len(),
        eval_obj_spec(ObjV::List(obj_view_seq(list@)), old(env)@, scope as int, depth as nat) == (
            result_view(r),
            final(env)@,
        ),
    decreases depth, *list, 1int, 0int,
{
    let ghost lv = obj_view_seq(list@);
    proof {
        lemma_keyword_literals();
        lemma_obj_view_seq(list@);
    }
    let mut result: Object = Object::Void;
    let mut k: usize = 1;
    while k < list.len()
        invariant
            env.wf(),
            scope < env@.len(),
            env@.len() >= old(env)@.len(),
            1 <= k <= list@.len(),
            lv == obj_view_seq(list@),
            lv.len() == list@.len(),
            obj_view(list@[0]) == ObjV::Keyword("begin"@),
            eval_begin_spec(lv, 1, ObjV::Void, old(env)@, scope as int, depth as nat)
                == eval_begin_spec(lv, k as int, result@, env@, scope as int, depth as nat),
        decreases list@.len() - k,
    {
        proof {
            lemma_keyword_literals();
            lemma_obj_view_seq(list@);
            assert(decreases_to!(*list => list@[k as int]));
        }
        match eval_obj(&list[k], env, scope, depth) {
            Ok(v) => {
                result = v;
            },
            Err(e) => {
                return Err(e);
            },
        }
        k = k + 1;
    }
    proof {
        lemma_keyword_literals();
        lemma_obj_view_seq(list@);
    }
    Ok(result)
}

/// `define`: evaluates the value operand and binds it under the given
/// symbol in the current scope; yields `Void`.
fn eval_define(list: &Vec<Object>, env: &mut Env, scope: usize, depth: u32) -> (r: Result<
    Object,
    EvalError,
>)
    requires
        old(env).wf(),
        scope < old(env)@.len(),
        list@.len() >= 1,
        obj_view(list@[0]) == ObjV::Keyword("define"@),
    ensures
        final(env).wf(),
        final(env)@.len() >= old(env)@.len(),
        eval_obj_spec(ObjV::List(obj_view_seq(list@)), old(env)@, scope as int, depth as nat) == (
            result_view(r),
            final(env)@,
        ),
    decreases depth, *list, 1int, 0int,
{
    proof {
        lemma_keyword_literals();
        lemma_obj_view_seq(list@);
    }
    if list.len() < 2 {
        return Err(EvalError::Invalid);
    }
    match &list[1] {
        Object::Symbol(name) => {
            if list.len() < 3 {
                return Err(EvalError::Invalid);
            }
            proof {
                assert(decreases_to!(*list => list@[2]));
            }
            match eval_obj(&list[2], env, scope, depth) {
                Ok(v) => {
                    env.set(scope, name.as_str(), v);
                    Ok(Object::Void)
                },
                Err(e) => Err(e),
            }
        },
        _ => Err(EvalError::TypeMismatch),
    }
}

/// `if`: evaluates the condition, which must yield a boolean, then walks
/// only the selected branch.
fn eval_if(list: &Vec<Object>, env: &mut Env, scope: usize, depth: u32) -> (r: Result<
    Object,
    EvalError,
>)
    requires
        old(env).wf(),
        scope < old(env)@.len(),
        list@.len() >= 1,
        obj_view(list@[0]) == ObjV::Keyword("if"@),
    ensures
        final(env).wf(),
        final(env)@.len() >= old(env)@.len(),
        eval_obj_spec(ObjV::List(obj_view_seq(list@)), old(env)@, scope as int, depth as nat) == (
            result_view(r),
            final(env)@,
        ),
    decreases depth, *list, 1int, 0int,
{
    proof {
        lemma_keyword_literals();
        lemma_obj_view_seq(list@);
    }
    if list.len() < 2 {
        return Err(EvalError::Invalid);
    }
    proof {
        assert(decreases_to!(*list => list@[1]));
    }
    let cond = match eval_obj(&list[1], env, scope, depth) {
        Ok(c) => c,
        Err(e) => {
            return Err(e);
        },
    };
    let b = match cond {
        Object::Bool(b) => b,
        _ => {
            return Err(EvalError::TypeMismatch);
        },
    };
    if b {
        if list.len() < 3 {
            return Err(EvalError::Invalid);
        }
        proof {
            assert(decreases_to!(*list => list@[2]));
        }
        eval_obj(&list[2], env, scope, depth)
    } else {
        if list.len() < 4 {
            return Err(EvalError::Invalid);
        }
        proof {
            assert(decreases_to!(*list => list@[3]));
        }
        eval_obj(&list[3], env, scope, depth)
    }
}

/// `lambda`: captures the parameter names and the body verbatim, without
/// evaluating the body and without capturing the defining environment.
fn eval_function_definition(list: &Vec<Object>, env: &mut Env, scope: usize, depth: u32) -> (r:
    Result<Object, EvalError>)
    requires
        old(env).wf(),
        scope < old(env)@.len(),
        list@.len() >= 1,
        obj_view(list@[0]) == ObjV::Keyword("lambda"@),
    ensures
        final(env).wf(),
        final(env)@.len() >= old(env)@.len(),
        eval_obj_spec(ObjV::List(obj_view_seq(list@)), old(env)@, scope as int, depth as nat) == (
            result_view(r),
            final(env)@,
        ),
    decreases depth, *list, 1int, 0int,
{
    proof {
        lemma_keyword_literals();
        lemma_obj_view_seq(list@);
    }
    if list.len() < 2 {
        return Err(EvalError::Invalid);
    }
    let params = match &list[1] {
        Object::List(ps) => {
            match read_params(ps) {
                Some(params) => params,
                None => {
                    return Err(EvalError::TypeMismatch);
                },
            }
        },
        _ => {
            return Err(EvalError::TypeMismatch);
        },
    };
    if list.len() < 3 {
        return Err(EvalError::Invalid);
    }
    match &list[2] {
        Object::List(body) => {
            let copy = duplicate_objects_pub(body);
            let lam = Object::Lambda(params, copy);
            Ok(lam)
        },
        _ => Err(EvalError::TypeMismatch),
    }
}

/// Extracts the parameter names of a lambda form: every item must be a
/// symbol.
fn read_params(ps: &Vec<Object>) -> (r: Option<Vec<String>>)
    ensures
        match r {
            Some(names) => params_of(obj_view_seq(ps@)) == Some(str_views(names@)),
            None => params_of(obj_view_seq(ps@)) is None,
        },
{
    let ghost pv = obj_view_seq(ps@);
    proof {
        lemma_obj_view_seq(ps@);
    }
    let mut names: Vec<String> = Vec::new();
    let n = ps.len();
    let mut k: usize = 0;
    while k < n
        invariant
            k <= n,
            n == ps@.len(),
            pv == obj_view_seq(ps@),
            pv.len() == ps@.len(),
            names@.len() == k,
            forall|j: int| 0 <= j < k ==> pv[j] == ObjV::Symbol((#[trigger] names@[j])@),
        decreases n - k,
    {
        proof {
            lemma_obj_view_seq(ps@);
        }
        match &ps[k] {
            Object::Symbol(s) => {
                names.push(s.clone());
            },
            _ => {
                proof {
                    lemma_params_of_none(pv, k as int);
                }
                return None;
            },
        }
        k = k + 1;
    }
    proof {
        lemma_params_of_all(pv, str_views(names@));
    }
    Some(names)
}

/// When some item of a lambda parameter list is not a symbol, there are no
/// parameter names.
proof fn lemma_params_of_none(pv: Seq<ObjV>, k: int)
    requires
        0 <= k < pv.len(),
        !(pv[k] is Symbol),
    ensures
        params_of(pv) is None,
    decreases pv.len(),
{
    if pv.len() > 0 {
        if k == 0 {
        } else {
            match pv[0] {
                ObjV::Symbol(_) => {
                    lemma_params_of_none(pv.subrange(1, pv.len() as int), k - 1);
                },
                _ => {},
            }
        }
    }
}

/// When every item of a lambda parameter list is a symbol, the parameter
/// names are exactly those symbols.
proof fn lemma_params_of_all(pv: Seq<ObjV>, names: Seq<Seq<char>>)
    requires
        pv.len() == names.len(),
        forall|j: int| 0 <= j < pv.len() ==> pv[j] == ObjV::Symbol(#[trigger] names[j]),
    ensures
        params_of(pv) == Some(names),
    decreases pv.len(),
{
    if pv.len() == 0 {
        assert(names =~= Seq::<Seq<char>>::empty());
    } else {
        let tailp = pv.subrange(1, pv.len() as int);
        let tailn = names.subrange(1, names.len() as int);
        assert(forall|j: int| 0 <= j < tailp.len() ==> tailp[j] == ObjV::Symbol(#[trigger] tailn[j]))
            by {
            assert(forall|j: int|
                0 <= j < tailp.len() ==> tailp[j] == pv[j + 1] && tailn[j] == names[j + 1]);
        }
        lemma_params_of_all(tailp, tailn);
        assert(names =~= seq![names[0]] + tailn);
    }
}

/// A deep copy of a body, exposed to the evaluator.
fn duplicate_objects_pub(v: &Vec<Object>) -> (r: Vec<Object>)
    ensures
        obj_view_seq(r@) == obj_view_seq(v@),
{
    let mut out: Vec<Object> = Vec::new();
    let n = v.len();
    let mut k: usize = 0;
    while k < n
        invariant
            k <= n,
            n == v@.len(),
            out@.len() == k,
            forall|j: int| 0 <= j < k ==> (#[trigger] out@[j])@ == v@[j]@,
        decreases n - k,
    {
        let copy = v[k].duplicate();
        out.push(copy);
        k = k + 1;
    }
    proof {
        lemma_obj_view_seq(out@);
        lemma_obj_view_seq(v@);
        assert forall|j: int| 0 <= j < v@.len() implies obj_view_seq(out@)[j] == obj_view_seq(
            v@,
        )[j] by {
            assert(obj_view_seq(out@)[j] == obj_view(out@[j]));
            assert(obj_view_seq(v@)[j] == obj_view(v@[j]));
            assert(out@[j]@ == v@[j]@);
        }
        assert(obj_view_seq(out@) =~= obj_view_seq(v@));
    }
    out
}

/// A list headed by an operator: exactly two operands, both fully
/// evaluated, combined by the strictly binary operator at the head.
fn eval_binary_op(list: &Vec<Object>, env: &mut Env, scope: usize, depth: u32) -> (r: Result<
    Object,
    EvalError,
>)
    requires
        old(env).wf(),
        scope < old(env)@.len(),
        list@.len() >= 1,
        obj_view(list@[0]) is BinaryOp,
    ensures
        final(env).wf(),
        final(env)@.len() >= old(env)@.len(),
        eval_obj_spec(ObjV::List(obj_view_seq(list@)), old(env)@, scope as int, depth as nat) == (
            result_view(r),
            final(env)@,
        ),
    decreases depth, *list, 2int, 0int,
{
    proof {
        lemma_keyword_literals();
        lemma_obj_view_seq(list@);
    }
    if list.len() != 3 {
        return Err(EvalError::Invalid);
    }
    proof {
        assert(decreases_to!(*list => list@[1]));
    }
    let a = match eval_obj(&list[1], env, scope, depth) {
        Ok(v) => v,
        Err(e) => {
            return Err(e);
        },
    };
    proof {
        assert(decreases_to!(*list => list@[2]));
    }
    let b = match eval_obj(&list[2], env, scope, depth) {
        Ok(v) => v,
        Err(e) => {
            return Err(e);
        },
    };
    match &list[0] {
        Object::BinaryOp(op) => apply_binop_exec(op, a, b),
        _ => {
            proof {
                assert(false);
            }
            Err(EvalError::Invalid)
        },
    }
}

/// One strictly binary operator on two fully evaluated operands, per
/// `apply_binop`.
fn apply_binop_exec(op: &String, a: Object, b: Object) -> (r: Result<Object, EvalError>)
    ensures
        result_view(r) == apply_binop(op@, a@, b@),
{
    if str_eq(op.as_str(), "+") {
        match (a, b) {
            (Object::Integer(l), Object::Integer(rr)) => match l.checked_add(rr) {
                Some(v) => Ok(Object::Integer(v)),
                None => Err(EvalError::Arithmetic),
            },
            (Object::Float(l), Object::Float(rr)) => Ok(Object::Float(add_bits(l, rr))),
            (Object::Integer(l), Object::Float(rr)) => Ok(
                Object::Float(add_bits(int_to_float_bits(l), rr)),
            ),
            (Object::Float(l), Object::Integer(rr)) => Ok(
                Object::Float(add_bits(l, int_to_float_bits(rr))),
            ),
            _ => Err(EvalError::TypeMismatch),
        }
    } else if str_eq(op.as_str(), "-") {
        match (a, b) {
            (Object::Integer(l), Object::Integer(rr)) => match l.checked_sub(rr) {
                Some(v) => Ok(Object::Integer(v)),
                None => Err(EvalError::Arithmetic),
            },
            (Object::Float(l), Object::Float(rr)) => Ok(Object::Float(sub_bits(l, rr))),
            (Object::Integer(l), Object::Float(rr)) => Ok(
                Object::Float(sub_bits(int_to_float_bits(l), rr)),
            ),
            (Object::Float(l), Object::Integer(rr)) => Ok(
                Object::Float(sub_bits(l, int_to_float_bits(rr))),
            ),
            _ => Err(EvalError::TypeMismatch),
        }
    } else if str_eq(op.as_str(), "*") {
        match (a, b) {
            (Object::Integer(l), Object::Integer(rr)) => match l.checked_mul(rr) {
                Some(v) => Ok(Object::Integer(v)),
                None => Err(EvalError::Arithmetic),
            },
            (Object::Float(l), Object::Float(rr)) => Ok(Object::Float(mul_bits(l, rr))),
            (Object::Integer(l), Object::Float(rr)) => Ok(
                Object::Float(mul_bits(int_to_float_bits(l), rr)),
            ),
            (Object::Float(l), Object::Integer(rr)) => Ok(
                Object::Float(mul_bits(l, int_to_float_bits(rr))),
            ),
            _ => Err(EvalError::TypeMismatch),
        }
    } else if str_eq(op.as_str(), "/") {
        match (a, b) {
            (Object::Integer(l), Object::Integer(rr)) => {
                if rr == 0 {
                    Err(EvalError::Arithmetic)
                } else {
                    match l.checked_div(rr) {
                        Some(v) => Ok(Object::Integer(v)),
                        None => Err(EvalError::Arithmetic),
                    }
                }
            },
            (Object::Float(l), Object::Float(rr)) => {
                if float_is_zero(rr) {
                    Err(EvalError::Arithmetic)
                } else {
                    Ok(Object::Float(div_bits(l, rr)))
                }
            },
            (Object::Integer(l), Object::Float(rr)) => {
                if float_is_zero(rr) {
                    Err(EvalError::Arithmetic)
                } else {
                    Ok(Object::Float(div_bits(int_to_float_bits(l), rr)))
                }
            },
            (Object::Float(l), Object::Integer(rr)) => {
                if rr == 0 {
                    Err(EvalError::Arithmetic)
                } else {
                    Ok(Object::Float(div_bits(l, int_to_float_bits(rr))))
                }
            },
            _ => Err(EvalError::TypeMismatch),
        }
    } else if str_eq(op.as_str(), "<") {
        match (a, b) {
            (Object::Integer(l), Object::Integer(rr)) => Ok(Object::Bool(l < rr)),
            (Object::Float(l), Object::Float(rr)) => Ok(Object::Bool(lt_bits(l, rr))),
            (Object::Integer(l), Object::Float(rr)) => Ok(
                Object::Bool(lt_bits(int_to_float_bits(l), rr)),
            ),
            (Object::Float(l), Object::Integer(rr)) => Ok(
                Object::Bool(lt_bits(l, int_to_float_bits(rr))),
            ),
            _ => Err(EvalError::TypeMismatch),
        }
    } else if str_eq(op.as_str(), ">") {
        match (a, b) {
            (Object::Integer(l), Object::Integer(rr)) => Ok(Object::Bool(l > rr)),
            (Object::Float(l), Object::Float(rr)) => Ok(Object::Bool(gt_bits(l, rr))),
            (Object::Integer(l), Object::Float(rr)) => Ok(
                Object::Bool(gt_bits(int_to_float_bits(l), rr)),
            ),
            (Object::Float(l), Object::Integer(rr)) => Ok(
                Object::Bool(gt_bits(l, int_to_float_bits(rr))),
            ),
            _ => Err(EvalError::TypeMismatch),
        }
    } else {
        Err(EvalError::Unsupported(op.clone()))
    }
}

/// The IEEE 754 less-than on bit patterns.
fn lt_bits(a: u64, b: u64) -> (r: bool)
    ensures
        r == float_lt(a, b),
{
    match cmp_bits(a, b) {
        Some(o) => match o {
            core::cmp::Ordering::Less => true,
            _ => false,
        },
        None => false,
    }
}

/// The IEEE 754 greater-than on bit patterns.
fn gt_bits(a: u64, b: u64) -> (r: bool)
    ensures
        r == float_gt(a, b),
{
    match cmp_bits(a, b) {
        Some(o) => match o {
            core::cmp::Ordering::Greater => true,
            _ => false,
        },
        None => false,
    }
}

/// A function call: the head symbol must resolve to a lambda; the actual
/// arguments evaluate in the caller's scope and bind in order in a fresh
/// scope chained to the calling scope; the body walks there with one unit
/// less of the depth budget.
fn eval_function_call(
    func_name: &String,
    list: &Vec<Object>,
    env: &mut Env,
    scope: usize,
    depth: u32,
) -> (r: Result<Object, EvalError>)
    requires
        old(env).wf(),
        scope < old(env)@.len(),
        list@.len() >= 1,
        obj_view(list@[0]) == ObjV::Symbol(func_name@),
    ensures
        final(env).wf(),
        final(env)@.len() >= old(env)@.len(),
        eval_obj_spec(ObjV::List(obj_view_seq(list@)), old(env)@, scope as int, depth as nat) == (
            result_view(r),
            final(env)@,
        ),
    decreases depth, *list, 2int, 0int,
{
    let ghost lv = obj_view_seq(list@);
    proof {
        lemma_keyword_literals();
        lemma_obj_view_seq(list@);
    }
    let looked = match env.get(scope, func_name.as_str()) {
        None => {
            return Err(EvalError::UndefinedName(func_name.clone()));
        },
        Some(v) => v,
    };
    match looked {
        Object::Lambda(params, body) => {
            let ghost paramsv = str_views(params@);
            let ghost bodyv = obj_view_seq(body@);
            let handle = env.extend(scope);
            let ghost env1 = env@;
            let mut k: usize = 0;
            while k < params.len()
                invariant
                    env.wf(),
                    scope < env@.len(),
                    handle < env@.len(),
                    env@.len() >= env1.len(),
                    env1.len() == old(env)@.len() + 1,
                    handle == old(env)@.len(),
                    env1 == old(env)@.push(
                        ScopeV { parent: Some(scope as int), vars: Map::<Seq<char>, ObjV>::empty() },
                    ),
                    lookup(old(env)@, scope as int, func_name@) == Some(
                        ObjV::Lambda(paramsv, bodyv),
                    ),
                    bodyv == obj_view_seq(body@),
                    obj_view(list@[0]) == ObjV::Symbol(func_name@),
                    k <= params@.len(),
                    paramsv == str_views(params@),
                    paramsv.len() == params@.len(),
                    lv == obj_view_seq(list@),
                    lv.len() == list@.len(),
                    list@.len() >= 1,
                    bind_args_spec(
                        lv,
                        paramsv,
                        0,
                        env1,
                        scope as int,
                        handle as int,
                        depth as nat,
                    ) == bind_args_spec(
                        lv,
                        paramsv,
                        k as int,
                        env@,
                        scope as int,
                        handle as int,
                        depth as nat,
                    ),
                decreases params@.len() - k,
            {
                proof {
                    lemma_obj_view_seq(list@);
                }
                if k + 1 >= list.len() {
                    return Err(EvalError::Arity);
                }
                proof {
                    lemma_obj_view_seq(list@);
                    assert(decreases_to!(*list => list@[k + 1]));
                }
                let arg = match eval_obj(&list[k + 1], env, scope, depth) {
                    Ok(v) => v,
                    Err(e) => {
                        return Err(e);
                    },
                };
                env.set(handle, params[k].as_str(), arg);
                k = k + 1;
            }
            proof {
                lemma_obj_view_seq(list@);
            }
            if depth == 0 {
                return Err(EvalError::DepthExceeded);
            }
            let body_obj = Object::List(body);
            eval_obj(&body_obj, env, handle, depth - 1)
        },
        _ => Err(EvalError::TypeMismatch),
    }
}

/// A self-evaluating atom (an integer, float, boolean or string literal, or
/// `Void`) evaluates to itself and leaves the environment untouched: every
/// integer literal comes back unchanged.
pub proof fn lemma_atom_self_evaluates(obj: ObjV, env: Seq<ScopeV>, scope: int, depth: nat)
    requires
        obj is Integer || obj is Float || obj is Bool || obj is Str || obj is Void,
    ensures
        eval_obj_spec(obj, env, scope, depth) == (Ok::<ObjV, EvalErrV>(obj), env),
{
}

/// Evaluating the same self-evaluating atom twice against the same
/// environment yields identical results and performs no environment
/// mutation at either step.
pub proof fn lemma_atom_evaluation_idempotent(obj: ObjV, env: Seq<ScopeV>, scope: int, depth: nat)
    requires
        obj is Integer || obj is Float || obj is Bool || obj is Str || obj is Void,
    ensures
        ({
            let (r1, env1) = eval_obj_spec(obj, env, scope, depth);
            let (r2, env2) = eval_obj_spec(obj, env1, scope, depth);
            r1 == r2 && env1 == env && env2 == env
        }),
{
    lemma_atom_self_evaluates(obj, env, scope, depth);
}

/// The four one-character operators are pairwise distinct texts.
proof fn lemma_op_literals()
    ensures
        "/"@ != "+"@,
        "/"@ != "-"@,
        "/"@ != "*"@,
{
    reveal_strlit("+");
    reveal_strlit("-");
    reveal_strlit("*");
    reveal_strlit("/");
    assert("+"@.len() == 1);
    assert("-"@.len() == 1);
    assert("*"@.len() == 1);
    assert("/"@.len() == 1);
    assert("+"@[0] == '+');
    assert("-"@[0] == '-');
    assert("*"@[0] == '*');
    assert("/"@[0] == '/');
}

/// Division of any numeric operand by an exact zero — the integer zero or
/// either IEEE 754 zero — is an arithmetic error: no infinity or NaN is
/// ever produced by such a division.
pub proof fn lemma_division_by_exact_zero_errs(a: ObjV, b: ObjV)
    requires
        a is Integer || a is Float,
        b == ObjV::Integer(0i64) || (b matches ObjV::Float(bits) && is_float_zero(bits)),
    ensures
        apply_binop("/"@, a, b) == Err::<ObjV, EvalErrV>(EvalErrV::Arithmetic),
{
    lemma_op_literals();
}

/// `if` walks only the selected branch: when the condition comes out true,
/// the form's whole outcome is that of the consequent alone, and the
/// alternate plays no part (and symmetrically when it comes out false).
pub proof fn lemma_if_runs_only_selected_branch(
    l: Seq<ObjV>,
    env: Seq<ScopeV>,
    scope: int,
    depth: nat,
)
    requires
        l.len() >= 4,
        l[0] == ObjV::Keyword("if"@),
    ensures
        ({
            let (c, env1) = eval_obj_spec(l[1], env, scope, depth);
            &&& (c == Ok::<ObjV, EvalErrV>(ObjV::Bool(true)) ==> eval_obj_spec(
                ObjV::List(l),
                env,
                scope,
                depth,
            ) == eval_obj_spec(l[2], env1, scope, depth))
            &&& (c == Ok::<ObjV, EvalErrV>(ObjV::Bool(false)) ==> eval_obj_spec(
                ObjV::List(l),
                env,
                scope,
                depth,
            ) == eval_obj_spec(l[3], env1, scope, depth))
        }),
{
    lemma_keyword_literals();
}

/// A call whose head symbol is not bound to anything is a fatal undefined
/// name error, and the environment is untouched.
pub proof fn lemma_call_of_undefined_name_errs(
    name: Seq<char>,
    l: Seq<ObjV>,
    env: Seq<ScopeV>,
    scope: int,
    depth: nat,
)
    requires
        l.len() >= 1,
        l[0] == ObjV::Symbol(name),
        lookup(env, scope, name) is None,
    ensures
        eval_obj_spec(ObjV::List(l), env, scope, depth) == (
            Err::<ObjV, EvalErrV>(EvalErrV::UndefinedName(name)),
            env,
        ),
{
}

/// A call whose head symbol resolves to anything but a lambda is a fatal
/// type error, and the environment is untouched.
pub proof fn lemma_call_of_non_lambda_errs(
    name: Seq<char>,
    l: Seq<ObjV>,
    env: Seq<ScopeV>,
    scope: int,
    depth: nat,
)
    requires
        l.len() >= 1,
        l[0] == ObjV::Symbol(name),
        lookup(env, scope, name) matches Some(v) && !(v is Lambda),
    ensures
        eval_obj_spec(ObjV::List(l), env, scope, depth) == (
            Err::<ObjV, EvalErrV>(EvalErrV::TypeMismatch),
            env,
        ),
{
}

} // verus!
