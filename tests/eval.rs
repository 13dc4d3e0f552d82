use sexp_interp::{eval, parse_eval, Env, EvalError, InterpretError, ParseSExprError, SExpr, Value};

fn assert_evaluates_to(expr: &str, value: i64) {
    let empty_env = Env::standard();
    let result = eval(&expr.parse().unwrap(), &empty_env).unwrap();
    assert_eq!(result, Value::Integer(value));
}

fn eval_text(expr: &str) -> Result<Value, EvalError> {
    let env = Env::standard();
    let ast: SExpr = expr.parse().unwrap();
    eval(&ast, &env)
}

#[test]
fn test_add() {
    assert_evaluates_to("(+ 2 3)", 5);
    assert_evaluates_to("(+ 4 5)", 9);
}

#[test]
fn test_mul() {
    assert_evaluates_to("(* 2 3)", 6);
    assert_evaluates_to("(* 4 5)", 20);
}

#[test]
fn test_atom() {
    assert_evaluates_to("3", 3);
}

#[test]
fn test_nested() {
    assert_evaluates_to("(+ 1 (* 2 3))", 7);
    assert_evaluates_to("(+ (* 1 2) (* 3 (+ 4 5)))", 29);
}

#[test]
fn test_let() {
    assert_evaluates_to("(let ((x 2)) (+ x 3))", 5);
    assert_evaluates_to("(let ((x 2) (y (* 3 4))) (+ x y))", 14);
}

#[test]
fn test_eval_error() {
    let empty_env = Env::standard();
    let result = eval(&"(+ 2 *)".parse().unwrap(), &empty_env);
    assert!(result.is_err())
}

#[test]
fn parse_eval_arithmetic() {
    assert_eq!(parse_eval("(+ 2 3)"), Ok(Value::Integer(5)));
    assert_eq!(parse_eval("(* 4 5)"), Ok(Value::Integer(20)));
    assert_eq!(parse_eval("3"), Ok(Value::Integer(3)));
}

#[test]
fn parse_eval_nesting() {
    assert_eq!(parse_eval("(+ 1 (* 2 3))"), Ok(Value::Integer(7)));
    assert_eq!(parse_eval("(+ (* 1 2) (* 3 (+ 4 5)))"), Ok(Value::Integer(29)));
}

#[test]
fn parse_eval_scoping() {
    assert_eq!(parse_eval("(let ((x 2)) (+ x 3))"), Ok(Value::Integer(5)));
    assert_eq!(parse_eval("(let ((x 2) (y (* 3 4))) (+ x y))"), Ok(Value::Integer(14)));
}

#[test]
fn let_bindings_do_not_see_their_siblings() {
    assert_eq!(
        parse_eval("(let ((x 1) (y x)) y)"),
        Err(InterpretError::Eval(EvalError::Undefined("x".to_string())))
    );
}

#[test]
fn let_body_sees_inner_binding_over_outer() {
    assert_eq!(parse_eval("(let ((x 1)) (let ((x 2) (y x)) (+ x y)))"), Ok(Value::Integer(3)));
}

#[test]
fn let_can_shadow_a_procedure() {
    assert_eq!(parse_eval("(let ((+ *)) (+ 3 4))"), Ok(Value::Integer(12)));
}

#[test]
fn plus_with_procedure_argument_is_contract_violation() {
    assert_eq!(eval_text("(+ 2 *)"), Err(EvalError::ContractViolation));
}

#[test]
fn calling_undefined_name_is_undefined() {
    assert_eq!(
        eval_text("(undefined_name)"),
        Err(EvalError::Undefined("undefined_name".to_string()))
    );
}

#[test]
fn calling_an_integer_is_contract_violation() {
    assert_eq!(eval_text("(1 2)"), Err(EvalError::ContractViolation));
}

#[test]
fn empty_call_is_bad_syntax() {
    assert_eq!(eval_text("()"), Err(EvalError::BadSyntax("()".to_string())));
}

#[test]
fn malformed_let_is_bad_syntax() {
    let bad = Err(EvalError::BadSyntax("let".to_string()));
    assert_eq!(eval_text("(let ((x)) 1)"), bad);
    assert_eq!(eval_text("(let ((x 1)))"), bad);
    assert_eq!(eval_text("(let x 1)"), bad);
    assert_eq!(eval_text("(let ((1 2)) 1)"), bad);
    assert_eq!(eval_text("(let ((x 1) y) 1)"), bad);
}

#[test]
fn let_shape_is_checked_before_any_binding_is_evaluated() {
    assert_eq!(
        eval_text("(let ((x nowhere) (y)) 1)"),
        Err(EvalError::BadSyntax("let".to_string()))
    );
}

#[test]
fn call_reports_leftmost_error() {
    assert_eq!(eval_text("(+ first second)"), Err(EvalError::Undefined("first".to_string())));
    assert_eq!(eval_text("(+ 1 (+ a 2) b)"), Err(EvalError::Undefined("a".to_string())));
    assert_eq!(eval_text("(nothing (+ 1 *))"), Err(EvalError::Undefined("nothing".to_string())));
}

#[test]
fn let_reports_leftmost_binding_error() {
    assert_eq!(
        eval_text("(let ((x first) (y second)) 1)"),
        Err(EvalError::Undefined("first".to_string()))
    );
    assert_eq!(
        eval_text("(let ((x (+ 1 *)) (y second)) 1)"),
        Err(EvalError::ContractViolation)
    );
}

#[test]
fn empty_sum_and_product() {
    assert_eq!(parse_eval("(+)"), Ok(Value::Integer(0)));
    assert_eq!(parse_eval("(*)"), Ok(Value::Integer(1)));
}

#[test]
fn arithmetic_wraps_around() {
    assert_eq!(parse_eval("(+ 9223372036854775807 1)"), Ok(Value::Integer(i64::MIN)));
    assert_eq!(parse_eval("(+ -9223372036854775808 -1)"), Ok(Value::Integer(i64::MAX)));
    assert_eq!(parse_eval("(* 4294967296 4294967296)"), Ok(Value::Integer(0)));
    assert_eq!(parse_eval("(* 3037000500 3037000500)"), Ok(Value::Integer(-9223372036709301616)));
}

#[test]
fn symbol_evaluates_to_procedure() {
    assert_eq!(parse_eval("+"), Ok(Value::Procedure(sexp_interp::Procedure::Sum)));
    assert_eq!(parse_eval("*"), Ok(Value::Procedure(sexp_interp::Procedure::Product)));
}

#[test]
fn parse_eval_reports_parse_errors() {
    assert_eq!(parse_eval("(+ 1 2"), Err(InterpretError::Parse(ParseSExprError::UnmatchedParen)));
    assert_eq!(parse_eval(")"), Err(InterpretError::Parse(ParseSExprError::ExpectedOpenParen)));
    assert_eq!(parse_eval("   "), Err(InterpretError::Parse(ParseSExprError::UnexpectedEnd)));
}

#[test]
fn parse_eval_reads_only_the_first_expression() {
    assert_eq!(parse_eval("(+ 1 2) (oops"), Ok(Value::Integer(3)));
}

#[test]
fn integer_text_round_trips() {
    for i in [0i64, 7, -7, 42, -1000, 1234567890, i64::MAX, i64::MIN] {
        let text = Value::Integer(i).to_string();
        assert_eq!(text, format!("{}", i));
        assert_eq!(parse_eval(&text), Ok(Value::Integer(i)));
    }
}

#[test]
fn value_text() {
    assert_eq!(Value::Integer(5).to_string(), "5");
    assert_eq!(Value::Integer(-120).to_string(), "-120");
    assert_eq!(Value::Procedure(sexp_interp::Procedure::Sum).to_string(), "<procedure:+>");
    assert_eq!(Value::Procedure(sexp_interp::Procedure::Product).to_string(), "<procedure:*>");
}

#[test]
fn error_text() {
    assert_eq!(EvalError::ContractViolation.to_string(), "contract violation");
    assert_eq!(EvalError::Undefined("x".to_string()).to_string(), "x: undefined");
    assert_eq!(EvalError::BadSyntax("let".to_string()).to_string(), "let: bad syntax");
    assert_eq!(
        InterpretError::Parse(ParseSExprError::UnmatchedParen).to_string(),
        "expected a `)` to close `(`"
    );
    assert_eq!(
        InterpretError::Eval(EvalError::Undefined("y".to_string())).to_string(),
        "y: undefined"
    );
}

#[test]
fn environment_extension_leaves_parent_unchanged() {
    let base = Env::standard();
    let child = base.with_binding("x".to_string(), Value::Integer(4));
    let grandchild = child.with_binding("x".to_string(), Value::Integer(9));
    let x = "x".to_string();
    assert_eq!(base.get(&x), None);
    assert_eq!(child.get(&x), Some(Value::Integer(4)));
    assert_eq!(grandchild.get(&x), Some(Value::Integer(9)));
    assert_eq!(
        grandchild.get(&"+".to_string()),
        Some(Value::Procedure(sexp_interp::Procedure::Sum))
    );
}

#[test]
fn as_integer_picks_integers() {
    assert_eq!(Value::Integer(3).as_integer(), Some(3));
    assert_eq!(Value::Procedure(sexp_interp::Procedure::Sum).as_integer(), None);
}

#[test]
fn later_let_binding_of_same_name_holds() {
    assert_eq!(parse_eval("(let ((x 1) (x 2)) x)"), Ok(Value::Integer(2)));
    assert_eq!(parse_eval("(let ((x 5)) (let ((x 1) (y x)) y))"), Ok(Value::Integer(5)));
}
