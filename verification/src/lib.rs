//! Management of a version-control ignore file through named, reusable
//! ignore groups drawn from a template catalog.
//!
//! The crate has three parts: a command-line argument state machine that
//! turns a token stream into a validated change-set (`args`), a parser for
//! the line-oriented group catalog (`ignore_groups`), and the ignore-file
//! store itself, which loads the framed text format, applies changes with
//! dependency expansion and deduplication, and serializes back (`gitignore`).
//! All file and terminal I/O stays outside the crate; every function here is
//! a pure transformation of in-memory values.

use vstd::prelude::*;

pub mod args;
pub mod gitignore;
pub mod ignore_groups;
pub mod laws;
pub mod text;

verus! {

/// The error cases a run can end with. Every error is terminal for the run;
/// the payload strings identify the offending token, line or group name.
#[derive(Debug)]
pub enum Error {
    /// The argument vector was empty.
    NoCommand,
    /// A non-flag token arrived while no collection mode was active.
    UnknownCommand(String),
    /// An exclusive flag (version, clear, help) was combined with other
    /// arguments; the payload is the flag's long and short spelling.
    MustBeAlone(String, String),
    /// A list flag appeared after other arguments; the payload is the flag's
    /// long and short spelling.
    MustBeFirst(String, String),
    /// A catalog line matched none of the recognized forms.
    CorruptCatalog(String),
    /// A group name was looked up that the catalog does not define.
    UnknownGroup(String),
    /// A group was added without force although its section already exists.
    GroupAlreadyExists(String),
    /// A group was removed that the ignore file does not contain.
    GroupNotFound(String),
    /// Dependency expansion re-entered a group that is still being expanded.
    DependencyCycle(String),
    /// A body line of the persisted ignore file belongs to no open section.
    CorruptFile,
}

/// Mathematical image of `Error`: the same cases over character sequences.
pub enum ErrorSpec {
    NoCommand,
    UnknownCommand(Seq<char>),
    MustBeAlone(Seq<char>, Seq<char>),
    MustBeFirst(Seq<char>, Seq<char>),
    CorruptCatalog(Seq<char>),
    UnknownGroup(Seq<char>),
    GroupAlreadyExists(Seq<char>),
    GroupNotFound(Seq<char>),
    DependencyCycle(Seq<char>),
    CorruptFile,
}

impl View for Error {
    type V = ErrorSpec;

    open spec fn view(&self) -> ErrorSpec {
        match self {
            Error::NoCommand => ErrorSpec::NoCommand,
            Error::UnknownCommand(t) => ErrorSpec::UnknownCommand(t@),
            Error::MustBeAlone(l, s) => ErrorSpec::MustBeAlone(l@, s@),
            Error::MustBeFirst(l, s) => ErrorSpec::MustBeFirst(l@, s@),
            Error::CorruptCatalog(l) => ErrorSpec::CorruptCatalog(l@),
            Error::UnknownGroup(g) => ErrorSpec::UnknownGroup(g@),
            Error::GroupAlreadyExists(g) => ErrorSpec::GroupAlreadyExists(g@),
            Error::GroupNotFound(g) => ErrorSpec::GroupNotFound(g@),
            Error::DependencyCycle(g) => ErrorSpec::DependencyCycle(g@),
            Error::CorruptFile => ErrorSpec::CorruptFile,
        }
    }
}

/// The text a given error is reported with.
pub open spec fn error_message(e: ErrorSpec) -> Seq<char> {
    match e {
        ErrorSpec::NoCommand => "Must enter command --help, -h for help."@,
        ErrorSpec::UnknownCommand(t) => "Invalid command \""@ + t + "\". --help for help."@,
        ErrorSpec::MustBeAlone(l, s) => l + ", "@ + s
            + " must be called without any other arguments."@,
        ErrorSpec::MustBeFirst(l, s) => l + ", "@ + s + " must be the first arguments"@,
        ErrorSpec::CorruptCatalog(l) => "Could not parse ignore group '"@ + l + "'"@,
        ErrorSpec::UnknownGroup(g) => "Ignore group "@ + g + " does not exist."@,
        ErrorSpec::GroupAlreadyExists(g) => "Group '"@ + g
            + "' already exists in .gitignore. Perhaps use --force-add, -fa."@,
        ErrorSpec::GroupNotFound(g) => ".gitignore does not have ignore group '"@ + g + "'."@,
        ErrorSpec::DependencyCycle(g) => "Ignore group dependency cycle at '"@ + g + "'."@,
        ErrorSpec::CorruptFile =>
            ".gitignore has been corrupted. Please run --clear, -cl to clear and restart."@,
    }
}

impl Error {
    /// Renders the human-readable report for this error.
    pub fn message(&self) -> (r: String)
        ensures
            r@ == error_message(self@),
    {
        let mut out = String::new();
        match self {
            Error::NoCommand => {
                out.append("Must enter command --help, -h for help.");
            },
            Error::UnknownCommand(t) => {
                out.append("Invalid command \"");
                out.append(t.as_str());
                out.append("\". --help for help.");
            },
            Error::MustBeAlone(l, s) => {
                out.append(l.as_str());
                out.append(", ");
                out.append(s.as_str());
                out.append(" must be called without any other arguments.");
            },
            Error::MustBeFirst(l, s) => {
                out.append(l.as_str());
                out.append(", ");
                out.append(s.as_str());
                out.append(" must be the first arguments");
            },
            Error::CorruptCatalog(l) => {
                out.append("Could not parse ignore group '");
                out.append(l.as_str());
                out.append("'");
            },
            Error::UnknownGroup(g) => {
                out.append("Ignore group ");
                out.append(g.as_str());
                out.append(" does not exist.");
            },
            Error::GroupAlreadyExists(g) => {
                out.append("Group '");
                out.append(g.as_str());
                out.append("' already exists in .gitignore. Perhaps use --force-add, -fa.");
            },
            Error::GroupNotFound(g) => {
                out.append(".gitignore does not have ignore group '");
                out.append(g.as_str());
                out.append("'.");
            },
            Error::DependencyCycle(g) => {
                out.append("Ignore group dependency cycle at '");
                out.append(g.as_str());
                out.append("'.");
            },
            Error::CorruptFile => {
                out.append(
                    ".gitignore has been corrupted. Please run --clear, -cl to clear and restart.",
                );
            },
        }
        out
    }
}

} // verus!
