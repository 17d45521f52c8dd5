use vstd::prelude::*;
use crate::expr::LineNo;

verus! {

/// What strict mode forbade.
#[derive(Debug, Clone, Copy, PartialEq, Eq, Structural, Hash)]
pub enum StrictModeViolation {
    LoopToWhileForbidden,
    MacroForbidden,
    FuncForbidden,
}

/// The errors of module resolution, function inlining and strict mode.
#[allow(inconsistent_fields)]
#[derive(Debug)]
pub enum ErrorCode {
    CouldNotFindModule { module: String },
    CouldNotFindFunction { module: String, func: String },
    CircularImport { message: String, module: String, history: Vec<String>, origin: String },
    FunctionNameCollision { module: String, func: String, count: Option<usize> },
    MultipleModuleCandidates { module: String, count: usize },
    UnexpectedExprType { message: String, expected: String, got: String },
    FunctionRecursionDetected { stack: Vec<String>, module: String, func: String, count: Option<usize> },
    FunctionUnexpectedNumberOfArguments { module: String, func: String, expected: usize, got: usize },
    StrictModeViolation { violation: StrictModeViolation },
}

/// Errors of the host system.
#[derive(Debug)]
pub enum RustError {
    Io(String),
}

/// Where and why the source text could not be parsed.
#[derive(Debug)]
pub enum PestErrorInfo {
    Error { variant: Box<PestErrorInfo>, location: Box<PestErrorInfo>, line_col: Box<PestErrorInfo> },
    ErrorVariantParsingError { positives: Vec<String>, negatives: Vec<String> },
    ErrorVariantCustomError(String),
    InputLocation(usize),
    LineColLocation((usize, usize)),
}

/// The kinds of errors.
#[derive(Debug)]
pub enum ErrorVariant {
    Message(String),
    ErrorCode(ErrorCode),
    Parse(PestErrorInfo),
    Rust(RustError),
}

/// An error, with the lines it concerns ((0, 0) when it concerns none).
#[derive(Debug)]
pub struct Error {
    pub lno: LineNo,
    pub variant: ErrorVariant,
}

/// A list of errors, or a value.
pub type StdResult<R> = Result<R, Vec<Error>>;

impl Error {
    /// An error of `variant` at `lno`.
    pub fn new(lno: LineNo, variant: ErrorVariant) -> (r: Error)
        ensures
            r.lno == lno,
            r.variant == variant,
    {
        Error { lno, variant }
    }

    /// An error of `code`, at `lno` or at (0, 0).
    pub fn new_from_code(lno: Option<LineNo>, code: ErrorCode) -> (r: Error)
        ensures
            r.lno == (match lno { Some(l) => l, None => (0usize, 0usize) }),
            r.variant == ErrorVariant::ErrorCode(code),
    {
        let lno = match lno {
            Some(l) => l,
            None => (0, 0),
        };
        Error { lno, variant: ErrorVariant::ErrorCode(code) }
    }

    /// An error with the message `msg`, at `lno` or at (0, 0).
    pub fn new_from_msg(lno: Option<LineNo>, msg: &str) -> (r: Error)
        ensures
            r.lno == (match lno { Some(l) => l, None => (0usize, 0usize) }),
            r.variant is Message,
            r.variant->Message_0@ == msg@,
    {
        let lno = match lno {
            Some(l) => l,
            None => (0, 0),
        };
        Error { lno, variant: ErrorVariant::Message(String::from_str(msg)) }
    }

    /// An error of the host system, described by `kind`.
    pub fn new_from_io(kind: String) -> (r: Error)
        ensures
            r.lno == (0usize, 0usize),
            r.variant is Rust,
            r.variant->Rust_0->Io_0@ == kind@,
    {
        Error { lno: (0, 0), variant: ErrorVariant::Rust(RustError::Io(kind)) }
    }

    /// A parse error at line `line`, column `col` (character `pos` of the source).
    pub fn new_from_parse(line: usize, col: usize, pos: usize, message: String) -> (r: Error)
        ensures
            r.lno == (line, line),
            r.variant is Parse,
    {
        Error {
            lno: (line, line),
            variant: ErrorVariant::Parse(
                PestErrorInfo::Error {
                    variant: Box::new(PestErrorInfo::ErrorVariantCustomError(message)),
                    location: Box::new(PestErrorInfo::InputLocation(pos)),
                    line_col: Box::new(PestErrorInfo::LineColLocation((line, col))),
                },
            ),
        }
    }
}

impl Clone for RustError {
    fn clone(&self) -> Self {
        match self {
            RustError::Io(s) => RustError::Io(s.clone()),
        }
    }
}

impl Clone for PestErrorInfo {
    fn clone(&self) -> Self
        decreases self,
    {
        match self {
            PestErrorInfo::Error { variant, location, line_col } => PestErrorInfo::Error {
                variant: Box::new((**variant).clone()),
                location: Box::new((**location).clone()),
                line_col: Box::new((**line_col).clone()),
            },
            PestErrorInfo::ErrorVariantParsingError { positives, negatives } => PestErrorInfo::ErrorVariantParsingError {
                positives: positives.clone(),
                negatives: negatives.clone(),
            },
            PestErrorInfo::ErrorVariantCustomError(s) => PestErrorInfo::ErrorVariantCustomError(s.clone()),
            PestErrorInfo::InputLocation(p) => PestErrorInfo::InputLocation(*p),
            PestErrorInfo::LineColLocation(lc) => PestErrorInfo::LineColLocation((lc.0, lc.1)),
        }
    }
}

impl Clone for ErrorCode {
    fn clone(&self) -> Self {
        match self {
            ErrorCode::CouldNotFindModule { module } => ErrorCode::CouldNotFindModule { module: module.clone() },
            ErrorCode::CouldNotFindFunction { module, func } => ErrorCode::CouldNotFindFunction {
                module: module.clone(),
                func: func.clone(),
            },
            ErrorCode::CircularImport { message, module, history, origin } => ErrorCode::CircularImport {
                message: message.clone(),
                module: module.clone(),
                history: history.clone(),
                origin: origin.clone(),
            },
            ErrorCode::FunctionNameCollision { module, func, count } => ErrorCode::FunctionNameCollision {
                module: module.clone(),
                func: func.clone(),
                count: *count,
            },
            ErrorCode::MultipleModuleCandidates { module, count } => ErrorCode::MultipleModuleCandidates {
                module: module.clone(),
                count: *count,
            },
            ErrorCode::UnexpectedExprType { message, expected, got } => ErrorCode::UnexpectedExprType {
                message: message.clone(),
                expected: expected.clone(),
                got: got.clone(),
            },
            ErrorCode::FunctionRecursionDetected { stack, module, func, count } => ErrorCode::FunctionRecursionDetected {
                stack: stack.clone(),
                module: module.clone(),
                func: func.clone(),
                count: *count,
            },
            ErrorCode::FunctionUnexpectedNumberOfArguments { module, func, expected, got } =>
                ErrorCode::FunctionUnexpectedNumberOfArguments {
                module: module.clone(),
                func: func.clone(),
                expected: *expected,
                got: *got,
            },
            ErrorCode::StrictModeViolation { violation } => ErrorCode::StrictModeViolation { violation: *violation },
        }
    }
}

impl Clone for ErrorVariant {
    fn clone(&self) -> Self {
        match self {
            ErrorVariant::Message(s) => ErrorVariant::Message(s.clone()),
            ErrorVariant::ErrorCode(c) => ErrorVariant::ErrorCode(c.clone()),
            ErrorVariant::Parse(p) => ErrorVariant::Parse(p.clone()),
            ErrorVariant::Rust(r) => ErrorVariant::Rust(r.clone()),
        }
    }
}

impl Clone for Error {
    fn clone(&self) -> Self {
        Error { lno: (self.lno.0, self.lno.1), variant: self.variant.clone() }
    }
}

/// All errors of a list of results in order, or all values when there is no error.
pub open spec fn spec_check_errors<T>(maybe: Seq<StdResult<T>>) -> Result<Seq<T>, Seq<Error>>
    decreases maybe.len(),
{
    if maybe.len() == 0 {
        Ok(seq![])
    } else {
        let rest = spec_check_errors(maybe.drop_last());
        match (rest, maybe.last()) {
            (Ok(vs), Ok(v)) => Ok(vs.push(v)),
            (Ok(_), Err(e)) => Err(e@),
            (Err(es), Ok(_)) => Err(es),
            (Err(es), Err(e)) => Err(es + e@),
        }
    }
}

/// Unwraps a list of results: all values when none failed, else the errors of every
/// failed one, in order.
pub fn check_errors<T>(maybe: Vec<StdResult<T>>) -> (r: StdResult<Vec<T>>)
    ensures
        match (r, spec_check_errors(maybe@)) {
            (Ok(vs), Ok(s)) => vs@ == s,
            (Err(es), Err(s)) => es@ == s,
            _ => false,
        },
{
    let mut oks: Vec<T> = Vec::new();
    let mut errs: Vec<Error> = Vec::new();
    let mut failed = false;
    let mut maybe = maybe;
    let ghost all = maybe@;
    let ghost n = all.len();
    while maybe.len() > 0
        invariant
            maybe@ == all.skip(n - maybe@.len()),
            maybe@.len() <= n,
            n == all.len(),
            match spec_check_errors(all.take(n - maybe@.len())) {
                Ok(s) => !failed && oks@ == s && errs@ == Seq::<Error>::empty(),
                Err(s) => failed && errs@ == s,
            },
        decreases maybe.len(),
    {
        let ghost k = (n - maybe@.len()) as int;
        let x = maybe.remove(0);
        proof {
            assert(all.take(k + 1).drop_last() =~= all.take(k));
            assert(all.skip(k)[0] == all[k]);
            assert(maybe@ =~= all.skip(k + 1));
            assert(all.take(k + 1).last() == x);
        }
        let ghost prev_errs = errs@;
        match x {
            Ok(v) => {
                if !failed {
                    oks.push(v);
                }
            },
            Err(e) => {
                let mut e = e;
                let ghost ev = e@;
                errs.append(&mut e);
                assert(errs@ == prev_errs + ev);
                failed = true;
            },
        }
    }
    assert(all.take(n as int) =~= all);
    if failed {
        Err(errs)
    } else {
        Ok(oks)
    }
}

} // verus!
