use verilog_macro_builder::const_expr::{
    checked_evaluate_constant_function_call, checked_evaluate_numeric_constant_expression,
    evaluate_constant_function_call, evaluate_numeric_constant_expression, Callee, ConstExpr,
    ConstFunctionCall, EvalError,
};

fn num(s: &str) -> ConstExpr {
    ConstExpr::UnsignedNumber(s.to_string())
}

fn param(name: &str) -> ConstExpr {
    ConstExpr::FunctionCall(call(name))
}

fn call(name: &str) -> ConstFunctionCall {
    ConstFunctionCall::TaskOrFunction {
        has_attributes: false,
        has_arguments: false,
        callee: Callee::Name(name.to_string()),
    }
}

fn binary(left: ConstExpr, op: &str, right: ConstExpr) -> ConstExpr {
    ConstExpr::Binary {
        left: Box::new(left),
        operator: op.to_string(),
        has_attributes: false,
        right: Box::new(right),
    }
}

fn params() -> Vec<(String, i64)> {
    vec![("WIDTH".to_string(), 16), ("DEPTH".to_string(), 4)]
}

#[test]
fn numbers() {
    assert_eq!(evaluate_numeric_constant_expression(&num("42"), &params()), 42);
    assert_eq!(checked_evaluate_numeric_constant_expression(&num("1_000"), &params()), Err(EvalError::InvalidNumber));
    assert_eq!(checked_evaluate_numeric_constant_expression(&num("99999999999999999999"), &params()), Err(EvalError::InvalidNumber));
}

#[test]
fn msb_of_a_parameterised_port() {
    let e = binary(param("WIDTH"), "-", num("1"));
    assert_eq!(evaluate_numeric_constant_expression(&e, &params()), 15);
    let e = binary(binary(param("WIDTH"), "-", param("DEPTH")), "-", num("20"));
    assert_eq!(evaluate_numeric_constant_expression(&e, &params()), -8);
}

#[test]
fn parameter_lookup() {
    assert_eq!(evaluate_constant_function_call(&call("DEPTH"), &params()), 4);
    assert_eq!(checked_evaluate_constant_function_call(&call("SIZE"), &params()), Err(EvalError::UnknownParameter));
    let mut ps = params();
    ps.push(("DEPTH".to_string(), 9));
    assert_eq!(evaluate_constant_function_call(&call("DEPTH"), &ps), 9);
    assert_eq!(evaluate_constant_function_call(&call("WIDTH"), &ps), 16);
}

#[test]
fn refused_calls() {
    let ps = params();
    let with = |has_attributes, has_arguments, callee| ConstFunctionCall::TaskOrFunction { has_attributes, has_arguments, callee };
    assert_eq!(checked_evaluate_constant_function_call(&ConstFunctionCall::OtherSubroutine, &ps), Err(EvalError::UnsupportedCall));
    assert_eq!(checked_evaluate_constant_function_call(&with(true, true, Callee::Hierarchical), &ps), Err(EvalError::CallAttributes));
    assert_eq!(checked_evaluate_constant_function_call(&with(false, true, Callee::Hierarchical), &ps), Err(EvalError::CallArguments));
    assert_eq!(checked_evaluate_constant_function_call(&with(false, false, Callee::Hierarchical), &ps), Err(EvalError::HierarchicalName));
    assert_eq!(checked_evaluate_constant_function_call(&with(false, false, Callee::PackageScoped), &ps), Err(EvalError::PackageScope));
}

#[test]
fn refused_expressions() {
    let ps = params();
    let cases = [
        (ConstExpr::BasedDecimalNumber, EvalError::UnsupportedNumber),
        (ConstExpr::NonDecimalNumber, EvalError::UnsupportedNumber),
        (ConstExpr::RealNumber, EvalError::RealNumber),
        (ConstExpr::OtherLiteral, EvalError::UnsupportedLiteral),
        (ConstExpr::PsParameter, EvalError::PsParameter),
        (ConstExpr::Specparam, EvalError::Specparam),
        (ConstExpr::OtherPrimary, EvalError::UnsupportedPrimary),
        (ConstExpr::Unary, EvalError::UnaryExpression),
        (ConstExpr::Ternary, EvalError::TernaryExpression),
        (ConstExpr::Inside, EvalError::InsideExpression),
    ];
    for (e, expected) in cases {
        assert_eq!(checked_evaluate_numeric_constant_expression(&e, &ps), Err(expected));
    }
}

#[test]
fn binary_operations() {
    let ps = params();
    assert_eq!(checked_evaluate_numeric_constant_expression(&binary(num("1"), "+", num("2")), &ps), Err(EvalError::UnsupportedOperator));
    let attributed = ConstExpr::Binary {
        left: Box::new(ConstExpr::RealNumber),
        operator: "-".to_string(),
        has_attributes: true,
        right: Box::new(num("1")),
    };
    assert_eq!(checked_evaluate_numeric_constant_expression(&attributed, &ps), Err(EvalError::BinaryAttributes));
    // The left operand is evaluated before the right one, and both before the operator.
    let e = binary(ConstExpr::Unary, "*", ConstExpr::RealNumber);
    assert_eq!(checked_evaluate_numeric_constant_expression(&e, &ps), Err(EvalError::UnaryExpression));
    let e = binary(num("3"), "*", ConstExpr::RealNumber);
    assert_eq!(checked_evaluate_numeric_constant_expression(&e, &ps), Err(EvalError::RealNumber));
}

#[test]
fn subtraction_is_exact_or_refused() {
    let ps = vec![("MIN".to_string(), i64::MIN), ("MAX".to_string(), i64::MAX)];
    assert_eq!(checked_evaluate_numeric_constant_expression(&binary(param("MIN"), "-", num("1")), &ps), Err(EvalError::SubtractionOverflow));
    assert_eq!(checked_evaluate_numeric_constant_expression(&binary(param("MAX"), "-", param("MIN")), &ps), Err(EvalError::SubtractionOverflow));
    assert_eq!(evaluate_numeric_constant_expression(&binary(param("MIN"), "-", num("-0")), &ps), i64::MIN);
    assert_eq!(evaluate_numeric_constant_expression(&binary(param("MAX"), "-", param("MAX")), &ps), 0);
}

#[test]
fn bare_parameter_expression_is_its_call() {
    let ps = params();
    for name in ["WIDTH", "DEPTH", "SIZE"] {
        assert_eq!(
            checked_evaluate_numeric_constant_expression(&param(name), &ps),
            checked_evaluate_constant_function_call(&call(name), &ps)
        );
    }
}
