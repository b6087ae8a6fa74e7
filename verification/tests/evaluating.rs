use mr_lisp::eval::{eval, Env, EvalError};
use mr_lisp::parser::Object;

#[test]
fn test_simple_add() {
    let mut env = Env::new();
    let result = eval("(+ 1 2)", &mut env).unwrap();
    assert_eq!(result, Object::Integer(3));
}

#[test]
fn test_circle_area() {
    let mut env = Env::new();
    let program = "
        (begin
            (define r 10)
            (define pi 314)
            (* pi (* r r))
        )
        ";
    let result = eval(program, &mut env).unwrap();
    assert_eq!(result, Object::Integer(314 * 10 * 10));
}

#[test]
fn test_srq_function() {
    let mut env = Env::new();
    let program = "
        (begin
            (define sqr (lambda (x) (* x x)))
            (sqr 10)
        )
        ";
    let result = eval(program, &mut env).unwrap();
    assert_eq!(result, Object::Integer(100));
}

#[test]
fn test_fibonacci() {
    let mut env = Env::new();
    let program = "
        (begin
            (define fib
                (lambda (n)
                    (if (< n 2)
                        n
                        (+ (fib (- n 1)) (fib (- n 2)))
                    )
                )
            )
            (fib 10)
        )
        ";
    let result = eval(program, &mut env).unwrap();
    assert_eq!(result, Object::Integer(55));
}

#[test]
fn integer_atom_evaluates_to_itself() {
    let mut env = Env::new();
    assert_eq!(eval("(begin 7)", &mut env).unwrap(), Object::Integer(7));
    assert_eq!(
        eval("(begin 2.5)", &mut env).unwrap(),
        Object::Float((2.5f64).to_bits())
    );
}

#[test]
fn atom_evaluation_is_idempotent() {
    let mut env = Env::new();
    let first = eval("(begin 11)", &mut env).unwrap();
    let second = eval("(begin 11)", &mut env).unwrap();
    assert_eq!(first, second);
    assert_eq!(first, Object::Integer(11));
    // No binding appeared along the way.
    assert_eq!(env.get(0, "begin"), None);
    assert_eq!(env.get(0, "z"), None);
}

#[test]
fn mixed_arithmetic_promotes_to_float() {
    let mut env = Env::new();
    assert_eq!(
        eval("(* 3.0 2)", &mut env).unwrap(),
        Object::Float((6.0f64).to_bits())
    );
    assert_eq!(
        eval("(+ 1 0.5)", &mut env).unwrap(),
        Object::Float((1.5f64).to_bits())
    );
    assert_eq!(
        eval("(+ 1.5 2.25)", &mut env).unwrap(),
        Object::Float((3.75f64).to_bits())
    );
    assert_eq!(
        eval("(- 5.5 1.25)", &mut env).unwrap(),
        Object::Float((4.25f64).to_bits())
    );
    assert_eq!(
        eval("(/ 7.5 2.5)", &mut env).unwrap(),
        Object::Float((3.0f64).to_bits())
    );
    assert_eq!(eval("(< 1.5 2.5)", &mut env).unwrap(), Object::Bool(true));
    assert_eq!(eval("(> 1.5 2.5)", &mut env).unwrap(), Object::Bool(false));
    assert_eq!(eval("(< 1 2.5)", &mut env).unwrap(), Object::Bool(true));
}

#[test]
fn division_by_exact_zero_is_an_arithmetic_error() {
    let mut env = Env::new();
    assert_eq!(eval("(/ 5 0)", &mut env), Err(EvalError::Arithmetic));
    assert_eq!(eval("(/ 5.0 0.0)", &mut env), Err(EvalError::Arithmetic));
    assert_eq!(eval("(/ 5 0.0)", &mut env), Err(EvalError::Arithmetic));
    assert_eq!(eval("(/ 5.0 0)", &mut env), Err(EvalError::Arithmetic));
}

#[test]
fn define_binds_in_the_supplied_environment() {
    let mut env = Env::new();
    let result = eval("(begin (define x 5) (define y 10) (+ x y))", &mut env).unwrap();
    assert_eq!(result, Object::Integer(15));
    assert_eq!(env.get(0, "x"), Some(Object::Integer(5)));
    assert_eq!(env.get(0, "y"), Some(Object::Integer(10)));
}

#[test]
fn if_runs_only_the_selected_branch() {
    let mut env = Env::new();
    assert_eq!(
        eval("(if (< 1 2) 10 20)", &mut env).unwrap(),
        Object::Integer(10)
    );
    // The untaken branch would divide by zero; it must never run.
    assert_eq!(
        eval("(if (< 1 2) 10 (/ 1 0))", &mut env).unwrap(),
        Object::Integer(10)
    );
    assert_eq!(
        eval("(if (> 1 2) (/ 1 0) 20)", &mut env).unwrap(),
        Object::Integer(20)
    );
}

#[test]
fn if_condition_must_be_boolean() {
    let mut env = Env::new();
    assert_eq!(eval("(if 1 2 3)", &mut env), Err(EvalError::TypeMismatch));
}

#[test]
fn calling_an_undefined_name_is_a_name_error() {
    let mut env = Env::new();
    assert_eq!(
        eval("(nosuch 1 2)", &mut env),
        Err(EvalError::UndefinedName("nosuch".to_string()))
    );
}

#[test]
fn calling_a_non_function_is_a_type_error() {
    let mut env = Env::new();
    eval("(define x 5)", &mut env).unwrap();
    assert_eq!(eval("(x 1)", &mut env), Err(EvalError::TypeMismatch));
}

#[test]
fn too_few_call_arguments_is_an_arity_error() {
    let mut env = Env::new();
    eval("(define f (lambda (x y) (+ x y)))", &mut env).unwrap();
    assert_eq!(eval("(f 1)", &mut env), Err(EvalError::Arity));
    assert_eq!(eval("(f 1 2)", &mut env).unwrap(), Object::Integer(3));
}

#[test]
fn unknown_keywords_and_operators_are_unsupported() {
    let mut env = Env::new();
    assert_eq!(
        eval("(cons 1 2)", &mut env),
        Err(EvalError::Unsupported("cons".to_string()))
    );
    assert_eq!(
        eval("(% 5 2)", &mut env),
        Err(EvalError::Unsupported("%".to_string()))
    );
}

#[test]
fn empty_list_is_an_invalid_expression() {
    let mut env = Env::new();
    assert_eq!(eval("()", &mut env), Err(EvalError::Invalid));
}

#[test]
fn bare_keyword_atom_is_an_invalid_expression() {
    let mut env = Env::new();
    assert_eq!(eval("(begin if)", &mut env), Err(EvalError::Invalid));
}

#[test]
fn define_target_must_be_a_symbol() {
    let mut env = Env::new();
    assert_eq!(eval("(define 5 6)", &mut env), Err(EvalError::TypeMismatch));
}

#[test]
fn parse_errors_surface_through_eval() {
    let mut env = Env::new();
    assert!(matches!(
        eval("(+ 1 2", &mut env),
        Err(EvalError::Parse(_))
    ));
}

#[test]
fn integer_overflow_is_an_arithmetic_error() {
    let mut env = Env::new();
    assert_eq!(
        eval("(+ 9223372036854775807 1)", &mut env),
        Err(EvalError::Arithmetic)
    );
}

#[test]
fn unbounded_recursion_exhausts_the_depth_budget() {
    let mut env = Env::new();
    eval("(define f (lambda (x) (f x)))", &mut env).unwrap();
    assert_eq!(eval("(f 1)", &mut env), Err(EvalError::DepthExceeded));
}

#[test]
fn dynamic_scoping_resolves_through_the_caller() {
    let mut env = Env::new();
    // `g` reads `a`, which is bound only in `f`'s call scope: under dynamic
    // scoping the call of `g` from `f` still sees it.
    let program = "
        (begin
            (define g (lambda (q) (+ a q)))
            (define f (lambda (a) (g 1)))
            (f 41)
        )
        ";
    assert_eq!(eval(program, &mut env).unwrap(), Object::Integer(42));
}

#[test]
fn lambda_body_must_be_a_list_form() {
    let mut env = Env::new();
    // A bare symbol is not a valid lambda body: the body must be a form.
    assert_eq!(
        eval("(define id (lambda (x) x))", &mut env),
        Err(EvalError::TypeMismatch)
    );
    eval("(define id (lambda (x) (* x 1)))", &mut env).unwrap();
    assert_eq!(
        eval("(begin (id 3) 4)", &mut env).unwrap(),
        Object::Integer(4)
    );
    let lam = env.get(0, "id").unwrap();
    assert_eq!(lam.to_text(), "Lambda(x) * x 1");
}

#[test]
fn environment_update_merges_local_bindings() {
    let mut env = Env::new();
    eval("(define x 1)", &mut env).unwrap();
    let child = env.extend(0);
    env.set(child, "x", Object::Integer(7));
    env.set(child, "y", Object::Integer(9));
    // Merge the child's local bindings into the root: last writer wins.
    env.update(0, child);
    assert_eq!(env.get(0, "x"), Some(Object::Integer(7)));
    assert_eq!(env.get(0, "y"), Some(Object::Integer(9)));
}

#[test]
fn lookup_falls_back_along_the_parent_chain() {
    let mut env = Env::new();
    env.set(0, "x", Object::Integer(1));
    let child = env.extend(0);
    assert_eq!(env.get(child, "x"), Some(Object::Integer(1)));
    env.set(child, "x", Object::Integer(2));
    assert_eq!(env.get(child, "x"), Some(Object::Integer(2)));
    // The ancestor is never mutated by a child binding.
    assert_eq!(env.get(0, "x"), Some(Object::Integer(1)));
}
