//! Verilog constant expressions as they size a module's ports, and their
//! evaluation against the module's parameters.
//!
//! The supported forms are unsized decimal numbers, references to top-level
//! module parameters (which the Verilog grammar reads as constant function
//! calls without arguments) and subtraction. Every other form is refused with
//! its own error.

use vstd::prelude::*;
use crate::decimal::{decimal_text, i64_from_text, law_decimal_round_trip, parse_decimal_i64};

verus! {

/// A constant expression.
#[derive(Debug, PartialEq, Eq)]
pub enum ConstExpr {
    /// A decimal number with neither base nor size, by its text.
    UnsignedNumber(String),
    /// A decimal number with a base or a size (such as `'d10` or `8'hx`).
    BasedDecimalNumber,
    /// An octal, binary or hexadecimal number.
    NonDecimalNumber,
    /// A real number.
    RealNumber,
    /// Any other literal (time, unbased unsized, string).
    OtherLiteral,
    /// A parameter reached through a package or class scope.
    PsParameter,
    /// A specify parameter.
    Specparam,
    /// A constant function call.
    FunctionCall(ConstFunctionCall),
    /// Any other primary (concatenation, cast, genvar, ...).
    OtherPrimary,
    /// A unary operation.
    Unary,
    /// A binary operation.
    Binary {
        left: Box<ConstExpr>,
        /// The operator as written.
        operator: String,
        /// Whether attributes are attached to the operator.
        has_attributes: bool,
        right: Box<ConstExpr>,
    },
    /// A conditional (`?:`) expression.
    Ternary,
    /// An `inside` expression.
    Inside,
}

/// The callee of a task or function call.
#[derive(Clone, Debug, PartialEq, Eq)]
pub enum Callee {
    /// A plain name.
    Name(String),
    /// A name under an explicit package scope.
    PackageScoped,
    /// A hierarchical name.
    Hierarchical,
}

/// A constant function call.
#[derive(Clone, Debug, PartialEq, Eq)]
pub enum ConstFunctionCall {
    /// A call of a task or function.
    TaskOrFunction {
        /// Whether attributes are attached to the call.
        has_attributes: bool,
        /// Whether the call has an argument list.
        has_arguments: bool,
        callee: Callee,
    },
    /// A system task or function call, or a method call.
    OtherSubroutine,
}

/// Why a constant expression has no value.
#[derive(Clone, Copy, Debug, PartialEq, Eq)]
pub enum EvalError {
    /// An unsized decimal number whose text is not a signed 64-bit integer.
    InvalidNumber,
    /// A decimal number with a base or size, or an octal, binary or
    /// hexadecimal number.
    UnsupportedNumber,
    /// A real number.
    RealNumber,
    /// A literal that is not a number.
    UnsupportedLiteral,
    /// A package- or class-scoped parameter.
    PsParameter,
    /// A specify parameter.
    Specparam,
    /// Another kind of primary.
    UnsupportedPrimary,
    /// A unary operation.
    UnaryExpression,
    /// A binary operation with attributes.
    BinaryAttributes,
    /// A binary operator other than `-`.
    UnsupportedOperator,
    /// A subtraction whose result does not fit in an `i64`.
    SubtractionOverflow,
    /// A conditional expression.
    TernaryExpression,
    /// An `inside` expression.
    InsideExpression,
    /// A call that is not of a task or function.
    UnsupportedCall,
    /// A call with attributes.
    CallAttributes,
    /// A call with an argument list.
    CallArguments,
    /// A callee under an explicit package scope.
    PackageScope,
    /// A hierarchical callee.
    HierarchicalName,
    /// A name that is not a parameter.
    UnknownParameter,
}

/// The value of parameter `name`: that of its last entry in `params`.
pub open spec fn param_value(params: Seq<(String, i64)>, name: Seq<char>) -> Option<i64>
    decreases params.len(),
{
    if params.len() == 0 {
        None
    } else if params.last().0@ == name {
        Some(params.last().1)
    } else {
        param_value(params.drop_last(), name)
    }
}

/// The value of a constant function call: the value of the parameter that it
/// names, or the first reason, in the order the checks are made, why it has
/// none.
pub open spec fn call_value(c: ConstFunctionCall, params: Seq<(String, i64)>) -> Result<i64, EvalError> {
    match c {
        ConstFunctionCall::OtherSubroutine => Err(EvalError::UnsupportedCall),
        ConstFunctionCall::TaskOrFunction { has_attributes, has_arguments, callee } => {
            if has_attributes {
                Err(EvalError::CallAttributes)
            } else if has_arguments {
                Err(EvalError::CallArguments)
            } else {
                match callee {
                    Callee::Hierarchical => Err(EvalError::HierarchicalName),
                    Callee::PackageScoped => Err(EvalError::PackageScope),
                    Callee::Name(n) => match param_value(params, n@) {
                        Some(v) => Ok(v),
                        None => Err(EvalError::UnknownParameter),
                    },
                }
            }
        },
    }
}

/// The value of a constant expression, or the first reason, in evaluation
/// order (left operand, right operand, then the operator), why it has none.
pub open spec fn expr_value(e: ConstExpr, params: Seq<(String, i64)>) -> Result<i64, EvalError>
    decreases e,
{
    match e {
        ConstExpr::UnsignedNumber(text) => match i64_from_text(text@) {
            Some(v) => Ok(v),
            None => Err(EvalError::InvalidNumber),
        },
        ConstExpr::BasedDecimalNumber => Err(EvalError::UnsupportedNumber),
        ConstExpr::NonDecimalNumber => Err(EvalError::UnsupportedNumber),
        ConstExpr::RealNumber => Err(EvalError::RealNumber),
        ConstExpr::OtherLiteral => Err(EvalError::UnsupportedLiteral),
        ConstExpr::PsParameter => Err(EvalError::PsParameter),
        ConstExpr::Specparam => Err(EvalError::Specparam),
        ConstExpr::FunctionCall(c) => call_value(c, params),
        ConstExpr::OtherPrimary => Err(EvalError::UnsupportedPrimary),
        ConstExpr::Unary => Err(EvalError::UnaryExpression),
        ConstExpr::Binary { left, operator, has_attributes, right } => {
            if has_attributes {
                Err(EvalError::BinaryAttributes)
            } else {
                match expr_value(*left, params) {
                    Err(err) => Err(err),
                    Ok(l) => match expr_value(*right, params) {
                        Err(err) => Err(err),
                        Ok(r) => if operator@ != "-"@ {
                            Err(EvalError::UnsupportedOperator)
                        } else if l - r < i64::MIN || l - r > i64::MAX {
                            Err(EvalError::SubtractionOverflow)
                        } else {
                            Ok((l - r) as i64)
                        },
                    },
                }
            }
        },
        ConstExpr::Ternary => Err(EvalError::TernaryExpression),
        ConstExpr::Inside => Err(EvalError::InsideExpression),
    }
}

fn lookup_parameter(params: &Vec<(String, i64)>, name: &String) -> (r: Option<i64>)
    ensures
        r == param_value(params@, name@),
{
    let mut k = params.len();
    assert(params@.take(k as int) =~= params@);
    while k > 0
        invariant
            k <= params@.len(),
            param_value(params@, name@) == param_value(params@.take(k as int), name@),
        decreases k,
    {
        let ghost prefix = params@.take(k as int);
        assert(prefix.drop_last() =~= params@.take(k - 1));
        if params[k - 1].0.eq(name) {
            return Some(params[k - 1].1);
        }
        k = k - 1;
    }
    None
}

/// Evaluates a constant function call, or says why it has no value.
pub fn checked_evaluate_constant_function_call(
    call: &ConstFunctionCall,
    params: &Vec<(String, i64)>,
) -> (r: Result<i64, EvalError>)
    ensures
        r == call_value(*call, params@),
{
    match call {
        ConstFunctionCall::OtherSubroutine => Err(EvalError::UnsupportedCall),
        ConstFunctionCall::TaskOrFunction { has_attributes, has_arguments, callee } => {
            if *has_attributes {
                return Err(EvalError::CallAttributes);
            }
            if *has_arguments {
                return Err(EvalError::CallArguments);
            }
            match callee {
                Callee::Hierarchical => Err(EvalError::HierarchicalName),
                Callee::PackageScoped => Err(EvalError::PackageScope),
                Callee::Name(n) => match lookup_parameter(params, n) {
                    Some(v) => Ok(v),
                    None => Err(EvalError::UnknownParameter),
                },
            }
        },
    }
}

/// The value of the parameter that a constant function call names; only
/// plain, argument-free calls of a known parameter have one.
pub fn evaluate_constant_function_call(call: &ConstFunctionCall, params: &Vec<(String, i64)>) -> (v: i64)
    requires
        call_value(*call, params@) is Ok,
    ensures
        call_value(*call, params@) == Ok::<i64, EvalError>(v),
{
    match checked_evaluate_constant_function_call(call, params) {
        Ok(v) => v,
        Err(_) => {
            assert(false);
            0
        },
    }
}

/// Evaluates a constant expression, or says why it has no value.
pub fn checked_evaluate_numeric_constant_expression(
    expression: &ConstExpr,
    params: &Vec<(String, i64)>,
) -> (r: Result<i64, EvalError>)
    ensures
        r == expr_value(*expression, params@),
    decreases expression,
{
    match expression {
        ConstExpr::UnsignedNumber(text) => match parse_decimal_i64(text.as_str()) {
            Some(v) => Ok(v),
            None => Err(EvalError::InvalidNumber),
        },
        ConstExpr::BasedDecimalNumber => Err(EvalError::UnsupportedNumber),
        ConstExpr::NonDecimalNumber => Err(EvalError::UnsupportedNumber),
        ConstExpr::RealNumber => Err(EvalError::RealNumber),
        ConstExpr::OtherLiteral => Err(EvalError::UnsupportedLiteral),
        ConstExpr::PsParameter => Err(EvalError::PsParameter),
        ConstExpr::Specparam => Err(EvalError::Specparam),
        ConstExpr::FunctionCall(c) => checked_evaluate_constant_function_call(c, params),
        ConstExpr::OtherPrimary => Err(EvalError::UnsupportedPrimary),
        ConstExpr::Unary => Err(EvalError::UnaryExpression),
        ConstExpr::Binary { left, operator, has_attributes, right } => {
            if *has_attributes {
                return Err(EvalError::BinaryAttributes);
            }
            let l = match checked_evaluate_numeric_constant_expression(&**left, params) {
                Ok(l) => l,
                Err(err) => {
                    return Err(err);
                },
            };
            let r = match checked_evaluate_numeric_constant_expression(&**right, params) {
                Ok(r) => r,
                Err(err) => {
                    return Err(err);
                },
            };
            let minus = String::from_str("-");
            if !operator.eq(&minus) {
                return Err(EvalError::UnsupportedOperator);
            }
            match l.checked_sub(r) {
                Some(v) => Ok(v),
                None => Err(EvalError::SubtractionOverflow),
            }
        },
        ConstExpr::Ternary => Err(EvalError::TernaryExpression),
        ConstExpr::Inside => Err(EvalError::InsideExpression),
    }
}

/// The value of a constant expression; subtraction is exact.
pub fn evaluate_numeric_constant_expression(expression: &ConstExpr, params: &Vec<(String, i64)>) -> (v: i64)
    requires
        expr_value(*expression, params@) is Ok,
    ensures
        expr_value(*expression, params@) == Ok::<i64, EvalError>(v),
{
    match checked_evaluate_numeric_constant_expression(expression, params) {
        Ok(v) => v,
        Err(_) => {
            assert(false);
            0
        },
    }
}

/// Subtraction is exact: where both operands have values and their difference
/// fits in an `i64`, `left - right` has that difference as its value.
pub proof fn law_subtraction_is_exact(
    left: ConstExpr,
    right: ConstExpr,
    operator: String,
    params: Seq<(String, i64)>,
    a: i64,
    b: i64,
)
    requires
        operator@ == "-"@,
        expr_value(left, params) == Ok::<i64, EvalError>(a),
        expr_value(right, params) == Ok::<i64, EvalError>(b),
        i64::MIN <= a - b <= i64::MAX,
    ensures
        expr_value(
            ConstExpr::Binary {
                left: Box::new(left),
                operator,
                has_attributes: false,
                right: Box::new(right),
            },
            params,
        ) == Ok::<i64, EvalError>((a - b) as i64),
{
}

/// A constant function call standing as an expression (which is how a bare
/// parameter name is read) has exactly the value of the call, and fails
/// exactly where the call does.
pub proof fn law_call_expression_is_its_call(call: ConstFunctionCall, params: Seq<(String, i64)>)
    ensures
        expr_value(ConstExpr::FunctionCall(call), params) == call_value(call, params),
{
}

/// A plain, argument-free call of a name has the value of the last parameter
/// of that name, and fails exactly where there is none.
pub proof fn law_parameter_reference(name: String, params: Seq<(String, i64)>)
    ensures
        expr_value(
            ConstExpr::FunctionCall(
                ConstFunctionCall::TaskOrFunction {
                    has_attributes: false,
                    has_arguments: false,
                    callee: Callee::Name(name),
                },
            ),
            params,
        ) == match param_value(params, name@) {
            Some(v) => Ok::<i64, EvalError>(v),
            None => Err(EvalError::UnknownParameter),
        },
{
}

/// Appending a parameter makes it the value of its name and leaves every
/// other name's value as it was.
pub proof fn law_later_parameter_wins(params: Seq<(String, i64)>, name: String, value: i64, other: Seq<char>)
    ensures
        param_value(params.push((name, value)), name@) == Some(value),
        other != name@ ==> param_value(params.push((name, value)), other) == param_value(params, other),
{
    assert(params.push((name, value)).drop_last() =~= params);
}

/// An unsized decimal number has the value of its text, read as a signed
/// 64-bit integer, whatever the parameters; it fails only where its text is
/// not such an integer.
pub proof fn law_unsigned_number_is_its_value(text: String, params: Seq<(String, i64)>)
    ensures
        i64_from_text(text@) matches Some(v) ==> expr_value(ConstExpr::UnsignedNumber(text), params)
            == Ok::<i64, EvalError>(v),
        i64_from_text(text@) is None ==> expr_value(ConstExpr::UnsignedNumber(text), params) == Err::<
            i64,
            EvalError,
        >(EvalError::InvalidNumber),
{
}

/// The decimal text of any value that fits in an `i64` (`0`, `7`, `64`, ...)
/// evaluates to that value.
pub proof fn law_decimal_number_value(text: String, n: nat, params: Seq<(String, i64)>)
    requires
        text@ == decimal_text(n),
        n <= i64::MAX,
    ensures
        expr_value(ConstExpr::UnsignedNumber(text), params) == Ok::<i64, EvalError>(n as i64),
{
    law_decimal_round_trip(n);
}

} // verus!
