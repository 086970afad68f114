//! The errors that parsing and validation can report.
//!
//! Every parser-level function returns success or one of these errors.  The
//! variants carry the offending text as plain character vectors; rendering
//! them as user-visible messages is left to the driver around the library.

use vstd::prelude::*;

verus! {

/// Mathematical image of `AppError`: the same variants with the offending
/// text as character sequences.
pub ghost enum SpecError {
    /// A command-line token failed to parse; carries the token and the
    /// error of the last classification attempt.
    Arg(Seq<char>, Box<SpecError>),
    /// More than one assignment operator in an operation token.
    ArgAss,
    /// Input exhausted while scanning a numeric literal.
    ArgMore(Seq<char>),
    /// The command-line token list is empty; a control condition, not a
    /// true error: it triggers the fall-back to script input.
    ArgNone,
    /// A non-digit character in a decimal literal.
    ArgNumDec(Seq<char>),
    /// An invalid digit in a hexadecimal literal.
    ArgNumHex(Seq<char>),
    /// A hexadecimal literal without the `0x`/`0X` prefix.
    ArgNumHexPrefix(Seq<char>),
    /// An unrecognized command-line option token.
    ArgOpt,
    /// An operation token without exactly one offset indicator.
    ArgPos,
    /// More than one opening bracket after the offset.
    ArgPosBktL,
    /// No closing bracket after the size.
    ArgPosBktR,
    /// A hexadecimal literal longer than the textual limit.
    ArgSizeLimit(Seq<char>),
    /// A write value that does not fit the declared size; carries the
    /// value and the size in bytes.
    ArgSizeMismatch(u64, u64),
    /// More than one opening bracket in the name part.
    ArgVarBktL,
    /// No closing bracket after the identifier.
    ArgVarBktR,
    /// A script line matching no entry form.
    Input(Seq<char>),
    /// A malformed definition line.
    InputDef(Seq<char>),
    /// A definition line that carries an assignment.
    InputDefSet(Seq<char>),
    /// Empty script input; a control condition: nothing to do at all.
    InputNone,
    /// An unrecognized option directive line.
    InputOpt(Seq<char>),
    /// A reference line without the reference prefix.
    InputRef(Seq<char>),
    /// A reference to an alias that no definition binds.
    InputRefNone(Seq<char>),
}

/// Errors arising while parsing command-line tokens or script text, and
/// while validating the parsed operations.  The variants mirror
/// `SpecError`, which `view` yields.
#[derive(Debug, PartialEq, Eq)]
pub enum AppError {
    Arg(Vec<char>, Box<AppError>),
    ArgAss,
    ArgMore(Vec<char>),
    ArgNone,
    ArgNumDec(Vec<char>),
    ArgNumHex(Vec<char>),
    ArgNumHexPrefix(Vec<char>),
    ArgOpt,
    ArgPos,
    ArgPosBktL,
    ArgPosBktR,
    ArgSizeLimit(Vec<char>),
    ArgSizeMismatch(u64, u64),
    ArgVarBktL,
    ArgVarBktR,
    Input(Vec<char>),
    InputDef(Vec<char>),
    InputDefSet(Vec<char>),
    InputNone,
    InputOpt(Vec<char>),
    InputRef(Vec<char>),
    InputRefNone(Vec<char>),
}

/// The mathematical value of an error: each variant with its text viewed
/// as a character sequence.
pub open spec fn err_view(e: AppError) -> SpecError
    decreases e,
{
    match e {
        AppError::Arg(t, cause) => SpecError::Arg(t@, Box::new(err_view(*cause))),
        AppError::ArgAss => SpecError::ArgAss,
        AppError::ArgMore(t) => SpecError::ArgMore(t@),
        AppError::ArgNone => SpecError::ArgNone,
        AppError::ArgNumDec(t) => SpecError::ArgNumDec(t@),
        AppError::ArgNumHex(t) => SpecError::ArgNumHex(t@),
        AppError::ArgNumHexPrefix(t) => SpecError::ArgNumHexPrefix(t@),
        AppError::ArgOpt => SpecError::ArgOpt,
        AppError::ArgPos => SpecError::ArgPos,
        AppError::ArgPosBktL => SpecError::ArgPosBktL,
        AppError::ArgPosBktR => SpecError::ArgPosBktR,
        AppError::ArgSizeLimit(t) => SpecError::ArgSizeLimit(t@),
        AppError::ArgSizeMismatch(value, size) => SpecError::ArgSizeMismatch(value, size),
        AppError::ArgVarBktL => SpecError::ArgVarBktL,
        AppError::ArgVarBktR => SpecError::ArgVarBktR,
        AppError::Input(t) => SpecError::Input(t@),
        AppError::InputDef(t) => SpecError::InputDef(t@),
        AppError::InputDefSet(t) => SpecError::InputDefSet(t@),
        AppError::InputNone => SpecError::InputNone,
        AppError::InputOpt(t) => SpecError::InputOpt(t@),
        AppError::InputRef(t) => SpecError::InputRef(t@),
        AppError::InputRefNone(t) => SpecError::InputRefNone(t@),
    }
}

impl View for AppError {
    type V = SpecError;

    open spec fn view(&self) -> SpecError {
        err_view(*self)
    }
}

} // verus!
