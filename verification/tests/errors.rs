use ton_labs_assembler::errors::{
    CompileError, OperationError, ParameterError, Position, ToOperationParameterError,
};
use ton_labs_assembler::numeral::decimal;
use ton_labs_assembler::text::indent;

#[test]
fn position_is_shown_with_row_and_column() {
    let pos = Position::new("main.code", 12, 5);
    assert_eq!(pos, Position { filename: String::from("main.code"), line: 12, column: 5 });
    assert_eq!(pos.to_string(), "main.code:12:5");
    assert_eq!(Position::new("", 0, 0).to_string(), ":0:0");
    assert_eq!(pos.clone(), pos);
}

#[test]
fn parameter_errors_are_shown() {
    assert_eq!(ParameterError::UnexpectedType.to_string(), "Unexpected parameter type.");
    assert_eq!(
        ParameterError::NotSupported.to_string(),
        "Parameter value is correct, however it's not supported yet."
    );
    assert_eq!(ParameterError::OutOfRange.to_string(), "Parameter value is out of range");
}

#[test]
fn operation_errors_are_shown() {
    assert_eq!(
        OperationError::Parameter(String::from("arg 0"), ParameterError::OutOfRange).to_string(),
        "Operation parameter arg 0 has the following problem: Parameter value is out of range"
    );
    assert_eq!(
        OperationError::TooManyParameters.to_string(),
        "Operation has too many parameters."
    );
    assert_eq!(
        OperationError::LogicErrorInParameters("arg 2 < arg 1").to_string(),
        "Logic error arg 2 < arg 1"
    );
    assert_eq!(
        OperationError::MissingRequiredParameters.to_string(),
        "Operation requires more parameters."
    );
    assert_eq!(
        OperationError::MissingBlock.to_string(),
        "Operation requires block in {} braces."
    );
    assert_eq!(
        OperationError::NotFitInSlice.to_string(),
        "Command bytecode is too long for single slice"
    );
}

#[test]
fn compile_errors_are_shown() {
    let error = CompileError::syntax(3, 7, "unexpected `}`").with_filename(String::from("a.code"));
    assert_eq!(error.to_string(), "a.code:3:7 Syntax error: unexpected `}`");
    let error = CompileError::unknown(1, 2, "FOO");
    assert_eq!(error.to_string(), ":1:2 Unknown operation FOO");
    let error = CompileError::too_many_params(4, 1, "NOP").with_filename(String::from("b"));
    assert_eq!(error.to_string(), "Instruction NOP at b:4:1: Operation has too many parameters.");
}

#[test]
fn nested_errors_are_indented() {
    let inner = CompileError::out_of_range(2, 3, "PUSHINT", "arg 0");
    let outer = CompileError::operation(1, 1, "PUSHCONT", OperationError::Nested(Box::new(inner)));
    assert_eq!(
        outer.to_string(),
        "Instruction PUSHCONT at :1:1: \n  Instruction PUSHINT at :2:3: Operation parameter arg 0 \
         has the following problem: Parameter value is out of range\n"
    );
    let deeper = CompileError::operation(0, 0, "IF", OperationError::Nested(Box::new(outer)));
    assert_eq!(
        deeper.to_string(),
        "Instruction IF at :0:0: \n  Instruction PUSHCONT at :1:1: \n    Instruction PUSHINT at \
         :2:3: Operation parameter arg 0 has the following problem: Parameter value is out of \
         range\n"
    );
}

#[test]
fn indent_stops_at_an_empty_line() {
    assert_eq!(indent("a\nbc"), "  a\n  bc\n");
    assert_eq!(indent("a\n"), "  a\n");
    assert_eq!(indent("a\n\nb"), "  a\n");
    assert_eq!(indent(""), "");
    assert_eq!(indent("\nabc"), "");
    assert_eq!(indent("x"), "  x\n");
}

#[test]
fn decimal_numbers() {
    assert_eq!(decimal(0), "0");
    assert_eq!(decimal(9), "9");
    assert_eq!(decimal(10), "10");
    assert_eq!(decimal(1023), "1023");
    assert_eq!(decimal(usize::MAX), usize::MAX.to_string());
}

#[test]
fn constructors_leave_the_file_name_empty() {
    assert_eq!(
        CompileError::syntax(1, 2, "bad"),
        CompileError::Syntax(Position::new("", 1, 2), String::from("bad"))
    );
    assert_eq!(
        CompileError::unknown(1, 2, "FOO"),
        CompileError::UnknownOperation(Position::new("", 1, 2), String::from("FOO"))
    );
    assert_eq!(
        CompileError::operation(1, 2, "FOO", OperationError::MissingBlock),
        CompileError::Operation(Position::new("", 1, 2), String::from("FOO"), OperationError::MissingBlock)
    );
    assert_eq!(
        CompileError::missing_params(3, 4, "ADD"),
        CompileError::Operation(
            Position::new("", 3, 4),
            String::from("ADD"),
            OperationError::MissingRequiredParameters
        )
    );
    assert_eq!(
        CompileError::missing_block(3, 4, "IF"),
        CompileError::Operation(Position::new("", 3, 4), String::from("IF"), OperationError::MissingBlock)
    );
    assert_eq!(
        CompileError::too_many_params(3, 4, "NOP"),
        CompileError::Operation(
            Position::new("", 3, 4),
            String::from("NOP"),
            OperationError::TooManyParameters
        )
    );
    assert_eq!(
        CompileError::out_of_range(5, 6, "PUSHINT", "arg 0"),
        CompileError::Operation(
            Position::new("", 5, 6),
            String::from("PUSHINT"),
            OperationError::Parameter(String::from("arg 0"), ParameterError::OutOfRange)
        )
    );
    assert_eq!(
        CompileError::unexpected_type(5, 6, "PUSHINT", "arg 1"),
        CompileError::Operation(
            Position::new("", 5, 6),
            String::from("PUSHINT"),
            OperationError::Parameter(String::from("arg 1"), ParameterError::UnexpectedType)
        )
    );
    assert_eq!(
        CompileError::logic_error(5, 6, "XCHG", "arg 2 < arg 1"),
        CompileError::Operation(
            Position::new("", 5, 6),
            String::from("XCHG"),
            OperationError::LogicErrorInParameters("arg 2 < arg 1")
        )
    );
}

#[test]
fn file_name_can_be_set_and_read() {
    let error = CompileError::missing_block(3, 4, "IF");
    assert_eq!(error.filename(), "");
    let named = error.clone().with_filename(String::from("main.code"));
    assert_eq!(named.filename(), "main.code");
    assert_eq!(
        named,
        CompileError::Operation(
            Position::new("main.code", 3, 4),
            String::from("IF"),
            OperationError::MissingBlock
        )
    );
    let syntax = CompileError::syntax(1, 1, "x").with_filename(String::from("s"));
    assert_eq!(syntax.filename(), "s");
    let unknown = CompileError::unknown(1, 1, "x").with_filename(String::from("u"));
    assert_eq!(unknown.filename(), "u");
    assert_eq!(error.clone(), error);
}

#[test]
fn parameter_errors_are_lifted_with_their_name() {
    assert_eq!(
        ParameterError::OutOfRange.parameter("arg 0"),
        OperationError::Parameter(String::from("arg 0"), ParameterError::OutOfRange)
    );
    let ok: Result<u8, ParameterError> = Ok(7);
    assert_eq!(ok.parameter("arg 1"), Ok(7));
    let err: Result<u8, ParameterError> = Err(ParameterError::UnexpectedType);
    assert_eq!(
        err.parameter("arg 1"),
        Err(OperationError::Parameter(String::from("arg 1"), ParameterError::UnexpectedType))
    );
}

#[test]
fn parameter_names_may_be_owned_texts() {
    let name = "arg ".to_string() + &3.to_string();
    assert_eq!(
        ParameterError::NotSupported.parameter(name.clone()),
        OperationError::Parameter(String::from("arg 3"), ParameterError::NotSupported)
    );
    let err: Result<u16, ParameterError> = Err(ParameterError::OutOfRange);
    assert_eq!(
        err.parameter(name),
        Err(OperationError::Parameter(String::from("arg 3"), ParameterError::OutOfRange))
    );
    let ok: Result<u16, ParameterError> = Ok(1);
    assert_eq!(ok.parameter(String::from("arg 0")), Ok(1));
}
