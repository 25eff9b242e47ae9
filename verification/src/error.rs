//! Errors
use vstd::prelude::*;

verus! {

/// A position in a sequence of token trees: the index of the next tree.
pub type Cursor = usize;

/// What a parser reports to the compiler where it gives up: the position of
/// the offending token tree and a message.
#[derive(Debug)]
pub struct Diagnostic {
    pub at: Cursor,
    pub message: String,
}

/// A parse that failed, with the diagnostic that was raised for it, if any.
#[derive(Debug)]
pub struct ParseError {
    pub diagnostic: Option<Diagnostic>,
}

impl View for ParseError {
    type V = Option<(int, Seq<char>)>;

    open spec fn view(&self) -> Option<(int, Seq<char>)> {
        match self.diagnostic {
            Some(d) => Some((d.at as int, d.message@)),
            None => None,
        }
    }
}

/// The result of a parser: the value and the position after it.
pub type PResult<T> = Result<(T, Cursor), ParseError>;

/// A failed parse that raises no diagnostic.
pub fn parse_error<T>() -> (r: PResult<T>)
    ensures
        r matches Err(e) && e@ == None::<(int, Seq<char>)>,
{
    Err(ParseError { diagnostic: None })
}

/// Gives up at `i` and raises the diagnostic `err` there.
pub fn exit_err<T>(i: Cursor, err: String) -> (r: PResult<T>)
    ensures
        r matches Err(e) && e@ == Some((i as int, err@)),
{
    Err(ParseError { diagnostic: Some(Diagnostic { at: i, message: err }) })
}

/// A field whose name an earlier field of the same list already has.
#[derive(Debug)]
pub struct Duplicate {
    /// The field's name.
    pub name: String,
    /// The position of the field's name.
    pub at: Cursor,
    /// The position of the name of the first field so named.
    pub first: Cursor,
}

/// The value of a `Duplicate`.
pub struct DuplicateModel {
    pub name: Seq<char>,
    pub at: int,
    pub first: int,
}

impl View for Duplicate {
    type V = DuplicateModel;

    open spec fn view(&self) -> DuplicateModel {
        DuplicateModel { name: self.name@, at: self.at as int, first: self.first as int }
    }
}

/// Why the contents of an `app!` macro were refused.
#[derive(Debug)]
pub enum Error {
    /// The contents are not a list of `key: value` fields separated by
    /// commas (reported as "parsing `app`").
    Syntax,
    /// A field is given twice ("Dupclicate(s) found."): each field whose
    /// name an earlier one has, in order ("Field `..` multiple defined",
    /// with "first defined here" at the first).
    Duplicates(Vec<Duplicate>),
    /// `init` is given twice ("Field `init` multiple defined.").
    InitTwice,
    /// Inside `init` or `idle`, `path` is given twice (reported under
    /// "parsing init" as "Field `path` multiple defined.").
    PathTwice,
    /// Inside `init` or `idle`, `resources` is given twice (reported under
    /// "parsing init" as "Field 'resources` multiple defined.").
    ResourcesTwice,
    /// A field with a name that `app!` does not know ("Illegal field {}.").
    IllegalField(String),
    /// `device` is given a block in place of a path ("should be a path.").
    DeviceNotPath,
    /// There is no `device` field ("Field `device` missing.").
    DeviceMissing,
    /// A task's `priority` does not fit in a `u8`.
    PriorityOutOfRange(u64),
    /// A task's `interarrival` does not fit in a `u32`.
    InterarrivalOutOfRange(u64),
}

/// The value of an `Error`.
pub enum ErrorModel {
    Syntax,
    Duplicates(Seq<DuplicateModel>),
    InitTwice,
    PathTwice,
    ResourcesTwice,
    IllegalField(Seq<char>),
    DeviceNotPath,
    DeviceMissing,
    PriorityOutOfRange(u64),
    InterarrivalOutOfRange(u64),
}

impl View for Error {
    type V = ErrorModel;

    open spec fn view(&self) -> ErrorModel {
        match self {
            Error::Syntax => ErrorModel::Syntax,
            Error::Duplicates(v) => ErrorModel::Duplicates(v@.map_values(|d: Duplicate| d@)),
            Error::InitTwice => ErrorModel::InitTwice,
            Error::PathTwice => ErrorModel::PathTwice,
            Error::ResourcesTwice => ErrorModel::ResourcesTwice,
            Error::IllegalField(s) => ErrorModel::IllegalField(s@),
            Error::DeviceNotPath => ErrorModel::DeviceNotPath,
            Error::DeviceMissing => ErrorModel::DeviceMissing,
            Error::PriorityOutOfRange(v) => ErrorModel::PriorityOutOfRange(*v),
            Error::InterarrivalOutOfRange(v) => ErrorModel::InterarrivalOutOfRange(*v),
        }
    }
}

} // verus!
