//! The errors that declaring or resolving an identifier can produce.

use vstd::prelude::*;
use vstd::string::StringExecFns;

verus! {

/// The spec-level value of an [`Error`]: identifier names appear as their
/// character sequences.
pub enum ErrorView {
    /// A new declaration's name already exists in its scope's counter.
    DuplicateIdentifier { name: Seq<char> },
    /// A second new declaration was attempted for the same object instance.
    MultipleDeclarations { kind: u64, new_index: usize, existing_index: usize },
    /// A reference's name is absent from the applicable counter or persisted
    /// registry entry.
    UnknownIdentifier { name: Seq<char> },
    /// A cross-scope reference targets a declaration that was never persisted.
    UntrackedScope { kind: u64 },
    /// A reference was used before any declaration of its kind was registered,
    /// or without the required import.
    NoActiveOrImportedScope { kind: u64 },
    /// No current declaration record exists for the kind.
    NoCurrentId { kind: u64 },
}

/// An error produced while declaring or resolving an identifier.
///
/// Every error is fatal to the current conversion attempt: none is retried
/// internally, and the partially-built scope stack is expected to be
/// discarded together with the whole attempt.
#[derive(Debug, PartialEq, Eq)]
pub enum Error {
    /// A new declaration's name already exists in its scope's counter.
    DuplicateIdentifier { name: String },
    /// A second new declaration was attempted for the same object instance,
    /// even if the two names differ.
    MultipleDeclarations { kind: u64, new_index: usize, existing_index: usize },
    /// A reference's name is absent from the applicable counter or persisted
    /// registry entry.
    UnknownIdentifier { name: String },
    /// A cross-scope reference found an import for its kind, but the targeted
    /// registry entry was never persisted.
    UntrackedScope { kind: u64 },
    /// A reference was used before any declaration of its kind was registered,
    /// or without the required import.
    NoActiveOrImportedScope { kind: u64 },
    /// No current declaration record exists for the kind.
    NoCurrentId { kind: u64 },
}

impl View for Error {
    type V = ErrorView;

    open spec fn view(&self) -> ErrorView {
        match self {
            Error::DuplicateIdentifier { name } => (ErrorView::DuplicateIdentifier {
                name: name@,
            }),
            Error::MultipleDeclarations { kind, new_index, existing_index } => {
                (ErrorView::MultipleDeclarations {
                    kind: *kind,
                    new_index: *new_index,
                    existing_index: *existing_index,
                })
            },
            Error::UnknownIdentifier { name } => (ErrorView::UnknownIdentifier { name: name@ }),
            Error::UntrackedScope { kind } => (ErrorView::UntrackedScope { kind: *kind }),
            Error::NoActiveOrImportedScope { kind } => (ErrorView::NoActiveOrImportedScope {
                kind: *kind,
            }),
            Error::NoCurrentId { kind } => (ErrorView::NoCurrentId { kind: *kind }),
        }
    }
}

/// The character standing for the decimal digit `d`.
pub open spec fn decimal_digit(d: nat) -> char {
    if d == 0 {
        '0'
    } else if d == 1 {
        '1'
    } else if d == 2 {
        '2'
    } else if d == 3 {
        '3'
    } else if d == 4 {
        '4'
    } else if d == 5 {
        '5'
    } else if d == 6 {
        '6'
    } else if d == 7 {
        '7'
    } else if d == 8 {
        '8'
    } else {
        '9'
    }
}

/// The decimal rendering of `n`, most significant digit first.
pub open spec fn decimal(n: nat) -> Seq<char>
    decreases n,
{
    if n < 10 {
        seq![decimal_digit(n)]
    } else {
        decimal(n / 10).push(decimal_digit(n % 10))
    }
}

/// Appends the single decimal digit `d` to `s`.
fn append_digit(s: &mut String, d: u64)
    requires
        d < 10,
    ensures
        final(s)@ == old(s)@ + seq![decimal_digit(d as nat)],
{
    proof {
        reveal_strlit("0");
        reveal_strlit("1");
        reveal_strlit("2");
        reveal_strlit("3");
        reveal_strlit("4");
        reveal_strlit("5");
        reveal_strlit("6");
        reveal_strlit("7");
        reveal_strlit("8");
        reveal_strlit("9");
    }
    if d == 0 {
        s.append("0");
        assert("0"@ =~= seq![decimal_digit(d as nat)]);
    } else if d == 1 {
        s.append("1");
        assert("1"@ =~= seq![decimal_digit(d as nat)]);
    } else if d == 2 {
        s.append("2");
        assert("2"@ =~= seq![decimal_digit(d as nat)]);
    } else if d == 3 {
        s.append("3");
        assert("3"@ =~= seq![decimal_digit(d as nat)]);
    } else if d == 4 {
        s.append("4");
        assert("4"@ =~= seq![decimal_digit(d as nat)]);
    } else if d == 5 {
        s.append("5");
        assert("5"@ =~= seq![decimal_digit(d as nat)]);
    } else if d == 6 {
        s.append("6");
        assert("6"@ =~= seq![decimal_digit(d as nat)]);
    } else if d == 7 {
        s.append("7");
        assert("7"@ =~= seq![decimal_digit(d as nat)]);
    } else if d == 8 {
        s.append("8");
        assert("8"@ =~= seq![decimal_digit(d as nat)]);
    } else {
        s.append("9");
        assert("9"@ =~= seq![decimal_digit(d as nat)]);
    }
}

/// Appends the decimal rendering of `n` to `s`.
fn push_decimal(s: &mut String, n: u64)
    ensures
        final(s)@ == old(s)@ + decimal(n as nat),
    decreases n,
{
    if n >= 10 {
        push_decimal(s, n / 10);
    }
    append_digit(s, n % 10);
    proof {
        if n >= 10 {
            assert(decimal(n as nat) =~= decimal((n / 10) as nat) + seq![
                decimal_digit((n % 10) as nat),
            ]);
            assert(final(s)@ =~= old(s)@ + decimal(n as nat));
        } else {
            assert(decimal(n as nat) =~= seq![decimal_digit((n % 10) as nat)]);
        }
    }
}

/// The human-readable message describing the error `e`.
pub open spec fn message_of(e: ErrorView) -> Seq<char> {
    match e {
        ErrorView::DuplicateIdentifier { name } => "Duplicate ID "@ + name,
        ErrorView::MultipleDeclarations { kind, new_index, existing_index } => {
            "Multiple new IDs defined for kind "@ + decimal(kind as nat) + " ("@ + decimal(
                new_index as nat,
            ) + ", "@ + decimal(existing_index as nat) + ")"@
        },
        ErrorView::UnknownIdentifier { name } => "Unknown ID "@ + name,
        ErrorView::UntrackedScope { kind } => {
            "Attempted to import scope for kind "@ + decimal(kind as nat)
                + ", but it was not tracked before"@
        },
        ErrorView::NoActiveOrImportedScope { kind } => {
            "Use of ID of kind "@ + decimal(kind as nat) + " before registering the first one"@
        },
        ErrorView::NoCurrentId { kind } => "No current ID for kind "@ + decimal(kind as nat),
    }
}

impl Error {
    /// Renders the human-readable message identifying the offending name or
    /// kind.
    pub fn message(&self) -> (r: String)
        ensures
            r@ == message_of(self@),
    {
        match self {
            Error::DuplicateIdentifier { name } => {
                let mut s = "Duplicate ID ".to_owned();
                s.append(name.as_str());
                s
            },
            Error::MultipleDeclarations { kind, new_index, existing_index } => {
                let mut s = "Multiple new IDs defined for kind ".to_owned();
                push_decimal(&mut s, *kind);
                s.append(" (");
                push_decimal(&mut s, *new_index as u64);
                s.append(", ");
                push_decimal(&mut s, *existing_index as u64);
                s.append(")");
                s
            },
            Error::UnknownIdentifier { name } => {
                let mut s = "Unknown ID ".to_owned();
                s.append(name.as_str());
                s
            },
            Error::UntrackedScope { kind } => {
                let mut s = "Attempted to import scope for kind ".to_owned();
                push_decimal(&mut s, *kind);
                s.append(", but it was not tracked before");
                s
            },
            Error::NoActiveOrImportedScope { kind } => {
                let mut s = "Use of ID of kind ".to_owned();
                push_decimal(&mut s, *kind);
                s.append(" before registering the first one");
                s
            },
            Error::NoCurrentId { kind } => {
                let mut s = "No current ID for kind ".to_owned();
                push_decimal(&mut s, *kind);
                s
            },
        }
    }
}

} // verus!
