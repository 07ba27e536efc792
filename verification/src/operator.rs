//! Operators that a member can overload.
use vstd::prelude::*;

verus! {

/// An operator's symbol and the name of the function that overloads it.
#[derive(Clone, Copy, Debug)]
pub struct BaseOperator {
    pub operator: &'static str,
    pub function_name: &'static str,
}

/// The operators that can be overloaded.
#[allow(non_camel_case_types)]
#[derive(Hash, Eq, PartialEq, Debug, Clone, Copy, Structural)]
pub enum Operator {
    UNARY_PLUS,
    PLUS,
    UNARY_MINUS,
    MINUS,
    TIMES,
    DIV,
    REM,
    PLUS_ASSIGN,
    MINUS_ASSIGN,
    TIMES_ASSIGN,
    DIV_ASSIGN,
    REM_ASSIGN,
    INC,
    DEC,
    EQUALS,
    NOT_EQUALS,
    NOT,
    RANGE_TO,
    CONTAINS,
    NOT_CONTAINS,
    GT,
    LT,
    GE,
    LE,
    ITERATOR,
}

impl Operator {
    /// The symbol of the operator.
    pub open spec fn symbol(self) -> &'static str {
        match self {
            Operator::UNARY_PLUS => "+",
            Operator::PLUS => "+",
            Operator::UNARY_MINUS => "-",
            Operator::MINUS => "-",
            Operator::TIMES => "*",
            Operator::DIV => "/",
            Operator::REM => "%",
            Operator::PLUS_ASSIGN => "+=",
            Operator::MINUS_ASSIGN => "-=",
            Operator::TIMES_ASSIGN => "*=",
            Operator::DIV_ASSIGN => "/=",
            Operator::REM_ASSIGN => "%=",
            Operator::INC => "++",
            Operator::DEC => "--",
            Operator::EQUALS => "==",
            Operator::NOT_EQUALS => "!=",
            Operator::NOT => "!",
            Operator::RANGE_TO => "..",
            Operator::CONTAINS => "in",
            Operator::NOT_CONTAINS => "!in",
            Operator::GT => ">",
            Operator::LT => "<",
            Operator::GE => ">=",
            Operator::LE => "<=",
            Operator::ITERATOR => "in",
        }
    }

    /// The name of the function that overloads the operator.
    pub open spec fn function(self) -> &'static str {
        match self {
            Operator::UNARY_PLUS => "unaryPlus",
            Operator::PLUS => "plus",
            Operator::UNARY_MINUS => "unaryMinus",
            Operator::MINUS => "minus",
            Operator::TIMES => "times",
            Operator::DIV => "div",
            Operator::REM => "rem",
            Operator::PLUS_ASSIGN => "plusAssign",
            Operator::MINUS_ASSIGN => "minusAssign",
            Operator::TIMES_ASSIGN => "timesAssign",
            Operator::DIV_ASSIGN => "divAssign",
            Operator::REM_ASSIGN => "remAssign",
            Operator::INC => "inc",
            Operator::DEC => "dec",
            Operator::EQUALS => "equals",
            Operator::NOT_EQUALS => "equals",
            Operator::NOT => "not",
            Operator::RANGE_TO => "rangeTo",
            Operator::CONTAINS => "contains",
            Operator::NOT_CONTAINS => "contains",
            Operator::GT => "compareTo",
            Operator::LT => "compareTo",
            Operator::GE => "compareTo",
            Operator::LE => "compareTo",
            Operator::ITERATOR => "iterator",
        }
    }

    /// The operator's symbol and function name.
    pub fn value(&self) -> (r: BaseOperator)
        ensures
            r.operator == self.symbol(),
            r.function_name == self.function(),
    {
        match *self {
            Operator::UNARY_PLUS => BaseOperator { operator: "+", function_name: "unaryPlus" },
            Operator::PLUS => BaseOperator { operator: "+", function_name: "plus" },
            Operator::UNARY_MINUS => BaseOperator { operator: "-", function_name: "unaryMinus" },
            Operator::MINUS => BaseOperator { operator: "-", function_name: "minus" },
            Operator::TIMES => BaseOperator { operator: "*", function_name: "times" },
            Operator::DIV => BaseOperator { operator: "/", function_name: "div" },
            Operator::REM => BaseOperator { operator: "%", function_name: "rem" },
            Operator::PLUS_ASSIGN => BaseOperator { operator: "+=", function_name: "plusAssign" },
            Operator::MINUS_ASSIGN => BaseOperator { operator: "-=", function_name: "minusAssign" },
            Operator::TIMES_ASSIGN => BaseOperator { operator: "*=", function_name: "timesAssign" },
            Operator::DIV_ASSIGN => BaseOperator { operator: "/=", function_name: "divAssign" },
            Operator::REM_ASSIGN => BaseOperator { operator: "%=", function_name: "remAssign" },
            Operator::INC => BaseOperator { operator: "++", function_name: "inc" },
            Operator::DEC => BaseOperator { operator: "--", function_name: "dec" },
            Operator::EQUALS => BaseOperator { operator: "==", function_name: "equals" },
            Operator::NOT_EQUALS => BaseOperator { operator: "!=", function_name: "equals" },
            Operator::NOT => BaseOperator { operator: "!", function_name: "not" },
            Operator::RANGE_TO => BaseOperator { operator: "..", function_name: "rangeTo" },
            Operator::CONTAINS => BaseOperator { operator: "in", function_name: "contains" },
            Operator::NOT_CONTAINS => BaseOperator { operator: "!in", function_name: "contains" },
            Operator::GT => BaseOperator { operator: ">", function_name: "compareTo" },
            Operator::LT => BaseOperator { operator: "<", function_name: "compareTo" },
            Operator::GE => BaseOperator { operator: ">=", function_name: "compareTo" },
            Operator::LE => BaseOperator { operator: "<=", function_name: "compareTo" },
            Operator::ITERATOR => BaseOperator { operator: "in", function_name: "iterator" },
        }
    }
}

} // verus!
