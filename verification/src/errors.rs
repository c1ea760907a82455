//! Errors raised while assembling: over a parameter, over an operation and
//! over a line of source.

use vstd::prelude::*;
use crate::numeral::{decimal, decimal_text};
use crate::text::{indent, indented};

verus! {

/// A position in a file.
#[derive(Debug, PartialEq, Eq)]
pub struct Position {
    /// File name.
    pub filename: String,
    /// Row.
    pub line: usize,
    /// Column.
    pub column: usize,
}

impl Clone for Position {
    fn clone(&self) -> (r: Self)
        ensures
            r == *self,
    {
        Position { filename: self.filename.clone(), line: self.line, column: self.column }
    }
}

impl Position {
    /// Constructor.
    pub fn new(filename: &str, line: usize, column: usize) -> (pos: Self)
        ensures
            pos.filename@ == filename@,
            pos.line == line,
            pos.column == column,
    {
        Self { filename: String::from_str(filename), line, column }
    }

    /// A position in a file without name.
    fn unnamed(line: usize, column: usize) -> (pos: Self)
        ensures
            pos.filename@ == Seq::<char>::empty(),
            pos.line == line,
            pos.column == column,
    {
        proof {
            reveal_strlit("");
        }
        Position::new("", line, column)
    }

    /// The text of the position: file name, row and column with `:` between.
    pub open spec fn text(&self) -> Seq<char> {
        self.filename@ + ":"@ + decimal_text(self.line as nat) + ":"@ + decimal_text(
            self.column as nat,
        )
    }

    /// Writes the position as `file:row:column`.
    pub fn to_string(&self) -> (s: String)
        ensures
            s@ == self.text(),
    {
        let mut s = self.filename.clone();
        s.append(":");
        s.append(decimal(self.line).as_str());
        s.append(":");
        s.append(decimal(self.column).as_str());
        s
    }
}

/// Alias for operation names ([`String`]).
pub type OperationName = String;

/// Alias for parameter names ([`String`]).
pub type ParameterName = String;

/// Alias for error explanations ([`String`]).
pub type Explanation = String;

/// Errors over the parameters of an operation.
#[derive(Clone, Copy, Debug, PartialEq, Eq, Structural)]
pub enum ParameterError {
    /// Type-checking error.
    UnexpectedType,
    /// Unsupported feature.
    NotSupported,
    /// Parameter is out of range.
    OutOfRange,
}

impl ParameterError {
    /// The text of the error.
    pub open spec fn text(&self) -> Seq<char> {
        match self {
            ParameterError::UnexpectedType => "Unexpected parameter type."@,
            ParameterError::NotSupported => "Parameter value is correct, however it's not supported yet."@,
            ParameterError::OutOfRange => "Parameter value is out of range"@,
        }
    }

    /// Writes the error as a sentence.
    pub fn to_string(&self) -> (s: String)
        ensures
            s@ == self.text(),
    {
        match self {
            ParameterError::UnexpectedType => String::from_str("Unexpected parameter type."),
            ParameterError::NotSupported => String::from_str(
                "Parameter value is correct, however it's not supported yet.",
            ),
            ParameterError::OutOfRange => String::from_str("Parameter value is out of range"),
        }
    }
}

/// Errors over operations.
#[derive(Debug, PartialEq, Eq)]
pub enum OperationError {
    /// Parameter-level error.
    Parameter(ParameterName, ParameterError),
    /// Arity error.
    TooManyParameters,
    /// Parameters do not make sense.
    LogicErrorInParameters(&'static str),
    /// Some required parameter is missing.
    MissingRequiredParameters,
    /// Missing block.
    MissingBlock,
    /// Nested compilation error inside an operation.
    Nested(Box<CompileError>),
    /// Operation size error.
    NotFitInSlice,
}

impl Clone for OperationError {
    fn clone(&self) -> (r: Self)
        ensures
            r == *self,
    {
        self.duplicate()
    }
}

impl OperationError {
    /// The text of the error. That of a nested error begins on a line of its
    /// own and is indented.
    pub open spec fn text(&self) -> Seq<char>
        decreases self,
    {
        match self {
            OperationError::Parameter(name, error) => "Operation parameter "@ + name@
                + " has the following problem: "@ + error.text(),
            OperationError::TooManyParameters => "Operation has too many parameters."@,
            OperationError::LogicErrorInParameters(error) => "Logic error "@ + error@,
            OperationError::MissingRequiredParameters => "Operation requires more parameters."@,
            OperationError::MissingBlock => "Operation requires block in {} braces."@,
            OperationError::Nested(error) => "\n"@ + indented(error.text()),
            OperationError::NotFitInSlice => "Command bytecode is too long for single slice"@,
        }
    }

    /// Writes the error as a sentence; a nested error on lines of its own,
    /// indented.
    pub fn to_string(&self) -> (s: String)
        ensures
            s@ == self.text(),
        decreases self,
    {
        match self {
            OperationError::Parameter(name, error) => {
                let mut s = String::from_str("Operation parameter ");
                s.append(name.as_str());
                s.append(" has the following problem: ");
                s.append(error.to_string().as_str());
                s
            },
            OperationError::TooManyParameters => String::from_str(
                "Operation has too many parameters.",
            ),
            OperationError::LogicErrorInParameters(error) => {
                let mut s = String::from_str("Logic error ");
                s.append(error);
                s
            },
            OperationError::MissingRequiredParameters => String::from_str(
                "Operation requires more parameters.",
            ),
            OperationError::MissingBlock => String::from_str(
                "Operation requires block in {} braces.",
            ),
            OperationError::Nested(error) => {
                let mut s = String::from_str("\n");
                s.append(indent(error.to_string().as_str()).as_str());
                s
            },
            OperationError::NotFitInSlice => String::from_str(
                "Command bytecode is too long for single slice",
            ),
        }
    }

    /// A copy of the error and of all errors nested in it.
    fn duplicate(&self) -> (r: Self)
        ensures
            r == *self,
        decreases self,
    {
        match self {
            OperationError::Parameter(name, error) => OperationError::Parameter(name.clone(), *error),
            OperationError::TooManyParameters => OperationError::TooManyParameters,
            OperationError::LogicErrorInParameters(error) => OperationError::LogicErrorInParameters(
                error,
            ),
            OperationError::MissingRequiredParameters => OperationError::MissingRequiredParameters,
            OperationError::MissingBlock => OperationError::MissingBlock,
            OperationError::Nested(error) => OperationError::Nested(Box::new(error.duplicate())),
            OperationError::NotFitInSlice => OperationError::NotFitInSlice,
        }
    }
}

/// Top-level compile error.
///
/// **NB**: all constructors set the name of the file of the error position to the empty string.
/// Use [`Self::with_filename`] to specify the file name.
#[derive(Debug, PartialEq, Eq)]
pub enum CompileError {
    /// Syntax error.
    Syntax(Position, Explanation),
    /// Unknown operation.
    UnknownOperation(Position, OperationName),
    /// Operation-level error.
    Operation(Position, OperationName, OperationError),
}

impl Clone for CompileError {
    fn clone(&self) -> (r: Self)
        ensures
            r == *self,
    {
        self.duplicate()
    }
}

impl CompileError {
    /// The text of the error.
    pub open spec fn text(&self) -> Seq<char>
        decreases self,
    {
        match self {
            CompileError::Syntax(position, explanation) => position.text() + " Syntax error: "@
                + explanation@,
            CompileError::UnknownOperation(position, name) => position.text()
                + " Unknown operation "@ + name@,
            CompileError::Operation(position, name, error) => "Instruction "@ + name@ + " at "@
                + position.text() + ": "@ + error.text(),
        }
    }

    /// Writes the error as a sentence.
    pub fn to_string(&self) -> (s: String)
        ensures
            s@ == self.text(),
        decreases self,
    {
        match self {
            CompileError::Syntax(position, explanation) => {
                let mut s = position.to_string();
                s.append(" Syntax error: ");
                s.append(explanation.as_str());
                s
            },
            CompileError::UnknownOperation(position, name) => {
                let mut s = position.to_string();
                s.append(" Unknown operation ");
                s.append(name.as_str());
                s
            },
            CompileError::Operation(position, name, error) => {
                let mut s = String::from_str("Instruction ");
                s.append(name.as_str());
                s.append(" at ");
                s.append(position.to_string().as_str());
                s.append(": ");
                s.append(error.to_string().as_str());
                s
            },
        }
    }

    /// A copy of the error and of all errors nested in it.
    fn duplicate(&self) -> (r: Self)
        ensures
            r == *self,
        decreases self,
    {
        match self {
            CompileError::Syntax(position, explanation) => CompileError::Syntax(
                position.clone(),
                explanation.clone(),
            ),
            CompileError::UnknownOperation(position, name) => CompileError::UnknownOperation(
                position.clone(),
                name.clone(),
            ),
            CompileError::Operation(position, name, error) => CompileError::Operation(
                position.clone(),
                name.clone(),
                error.duplicate(),
            ),
        }
    }

    /// The position that the error carries.
    pub open spec fn position(&self) -> Position {
        match self {
            CompileError::Syntax(pos, _) => *pos,
            CompileError::UnknownOperation(pos, _) => *pos,
            CompileError::Operation(pos, _, _) => *pos,
        }
    }

    /// The error with the file name of its position replaced.
    pub open spec fn named(self, filename: String) -> Self {
        match self {
            CompileError::Syntax(pos, explanation) => CompileError::Syntax(
                Position { filename, line: pos.line, column: pos.column },
                explanation,
            ),
            CompileError::UnknownOperation(pos, name) => CompileError::UnknownOperation(
                Position { filename, line: pos.line, column: pos.column },
                name,
            ),
            CompileError::Operation(pos, name, error) => CompileError::Operation(
                Position { filename, line: pos.line, column: pos.column },
                name,
                error,
            ),
        }
    }

    /// Whether the position is the given row and column of a file without
    /// name.
    pub open spec fn at(&self, line: usize, column: usize) -> bool {
        &&& self.position().filename@ == Seq::<char>::empty()
        &&& self.position().line == line
        &&& self.position().column == column
    }

    /// Whether the error is an operation-level error at the given row and
    /// column of a file without name, over the operation `name`.
    pub open spec fn operation_at(&self, line: usize, column: usize, name: Seq<char>) -> bool {
        &&& self.at(line, column)
        &&& self matches CompileError::Operation(_, operation, _) && operation@ == name
    }

    /// Creates a syntax error.
    ///
    /// Sets the name of the file of the error position as the empty string.
    pub fn syntax(line: usize, column: usize, explanation: &str) -> (error: Self)
        ensures
            error.at(line, column),
            error matches CompileError::Syntax(_, text) && text@ == explanation@,
    {
        CompileError::Syntax(Position::unnamed(line, column), String::from_str(explanation))
    }

    /// Creates an unknown operation error.
    ///
    /// Sets the name of the file of the error position as the empty string.
    pub fn unknown(line: usize, column: usize, name: &str) -> (error: Self)
        ensures
            error.at(line, column),
            error matches CompileError::UnknownOperation(_, operation) && operation@ == name@,
    {
        CompileError::UnknownOperation(Position::unnamed(line, column), String::from_str(name))
    }

    /// Creates an operation-level error.
    ///
    /// Sets the name of the file of the error position as the empty string.
    pub fn operation(line: usize, column: usize, name: &str, error: OperationError) -> (result: Self)
        ensures
            result.operation_at(line, column, name@),
            result matches CompileError::Operation(_, _, inner) && inner == error,
    {
        CompileError::Operation(Position::unnamed(line, column), String::from_str(name), error)
    }

    /// Some parameters are missing.
    ///
    /// Sets the name of the file of the error position as the empty string.
    pub fn missing_params(line: usize, column: usize, name: &str) -> (error: Self)
        ensures
            error.operation_at(line, column, name@),
            error matches CompileError::Operation(_, _, inner)
                && inner is MissingRequiredParameters,
    {
        CompileError::Operation(
            Position::unnamed(line, column),
            String::from_str(name),
            OperationError::MissingRequiredParameters,
        )
    }

    /// A block is missing.
    ///
    /// Sets the name of the file of the error position as the empty string.
    pub fn missing_block(line: usize, column: usize, name: &str) -> (error: Self)
        ensures
            error.operation_at(line, column, name@),
            error matches CompileError::Operation(_, _, inner) && inner is MissingBlock,
    {
        CompileError::Operation(
            Position::unnamed(line, column),
            String::from_str(name),
            OperationError::MissingBlock,
        )
    }

    /// Operation was given too many parameters.
    ///
    /// Sets the name of the file of the error position as the empty string.
    pub fn too_many_params(line: usize, column: usize, name: &str) -> (error: Self)
        ensures
            error.operation_at(line, column, name@),
            error matches CompileError::Operation(_, _, inner) && inner is TooManyParameters,
    {
        CompileError::Operation(
            Position::unnamed(line, column),
            String::from_str(name),
            OperationError::TooManyParameters,
        )
    }

    /// Out of range parameter.
    ///
    /// Sets the name of the file of the error position as the empty string.
    pub fn out_of_range(line: usize, column: usize, name: &str, param: &str) -> (error: Self)
        ensures
            error.operation_at(line, column, name@),
            error matches CompileError::Operation(_, _, OperationError::Parameter(parameter, kind))
                && parameter@ == param@ && kind is OutOfRange,
    {
        let operation = OperationError::Parameter(
            String::from_str(param),
            ParameterError::OutOfRange,
        );
        CompileError::Operation(Position::unnamed(line, column), String::from_str(name), operation)
    }

    /// Unexpected type error.
    ///
    /// Sets the name of the file of the error position as the empty string.
    pub fn unexpected_type(line: usize, column: usize, name: &str, param: &str) -> (error: Self)
        ensures
            error.operation_at(line, column, name@),
            error matches CompileError::Operation(_, _, OperationError::Parameter(parameter, kind))
                && parameter@ == param@ && kind is UnexpectedType,
    {
        let operation = OperationError::Parameter(
            String::from_str(param),
            ParameterError::UnexpectedType,
        );
        CompileError::operation(line, column, name, operation)
    }

    /// Logic error.
    ///
    /// Sets the name of the file of the error position as the empty string.
    pub fn logic_error(line: usize, column: usize, name: &str, error: &'static str) -> (result: Self)
        ensures
            result.operation_at(line, column, name@),
            result matches CompileError::Operation(
                _,
                _,
                OperationError::LogicErrorInParameters(text),
            ) && text == error,
    {
        let operation = OperationError::LogicErrorInParameters(error);
        CompileError::operation(line, column, name, operation)
    }

    /// Filename accessor.
    pub fn filename(&self) -> (name: &String)
        ensures
            *name == self.position().filename,
    {
        match self {
            Self::Syntax(pos, _) => &pos.filename,
            Self::UnknownOperation(pos, _) => &pos.filename,
            Self::Operation(pos, _, _) => &pos.filename,
        }
    }

    /// Sets the filename.
    pub fn with_filename(self, filename: String) -> (error: Self)
        ensures
            error == self.named(filename),
    {
        match self {
            Self::Syntax(pos, explanation) => Self::Syntax(
                Position { filename, line: pos.line, column: pos.column },
                explanation,
            ),
            Self::UnknownOperation(pos, name) => Self::UnknownOperation(
                Position { filename, line: pos.line, column: pos.column },
                name,
            ),
            Self::Operation(pos, name, error) => Self::Operation(
                Position { filename, line: pos.line, column: pos.column },
                name,
                error,
            ),
        }
    }
}

/// Turns itself into a parameter error for an operation, under the name of
/// the parameter, which is given as a `&str` or as a `String`.
pub trait ToOperationParameterError<T> {
    /// Output type, a result or an [`OperationError`].
    type Output;

    /// Converts itself into the output type.
    fn parameter(self, name: T) -> Self::Output;
}

impl<'a, T> ToOperationParameterError<&'a str> for Result<T, ParameterError> {
    type Output = Result<T, OperationError>;

    fn parameter(self, name: &'a str) -> (result: Result<T, OperationError>)
        ensures
            self matches Ok(value) ==> result == Ok::<T, OperationError>(value),
            self matches Err(kind) ==> (result matches Err(OperationError::Parameter(parameter, e))
                && parameter@ == name@ && e == kind),
    {
        match self {
            Ok(value) => Ok(value),
            Err(e) => Err(e.parameter(name)),
        }
    }
}

impl<T> ToOperationParameterError<String> for Result<T, ParameterError> {
    type Output = Result<T, OperationError>;

    fn parameter(self, name: String) -> (result: Result<T, OperationError>)
        ensures
            self matches Ok(value) ==> result == Ok::<T, OperationError>(value),
            self matches Err(kind) ==> result == Err::<T, OperationError>(
                OperationError::Parameter(name, kind),
            ),
    {
        match self {
            Ok(value) => Ok(value),
            Err(e) => Err(e.parameter(name)),
        }
    }
}

impl<'a> ToOperationParameterError<&'a str> for ParameterError {
    type Output = OperationError;

    fn parameter(self, name: &'a str) -> (result: OperationError)
        ensures
            result matches OperationError::Parameter(parameter, e) && parameter@ == name@ && e
                == self,
    {
        OperationError::Parameter(String::from_str(name), self)
    }
}

impl ToOperationParameterError<String> for ParameterError {
    type Output = OperationError;

    fn parameter(self, name: String) -> (result: OperationError)
        ensures
            result == OperationError::Parameter(name, self),
    {
        OperationError::Parameter(name, self)
    }
}

} // verus!
