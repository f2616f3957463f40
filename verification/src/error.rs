//! The closed set of failures that the note store reports, and the text of
//! each.

use vstd::prelude::*;
use vstd::string::*;

verus! {

/// Every failure that an operation on notes can report.
#[derive(Debug)]
pub enum NoteError {
    /// No note with this identifier exists.
    NotFound(String),
    /// The document has no string scalar under `id`.
    MissingId,
    /// The document has no text object under `content`.
    MissingContent,
    /// The bytes are not a saved document.
    DeserializationError(String),
    /// The content store failed.
    IoError(String),
    /// A one-based position, and the number of notes it had to lie within.
    IndexOutOfRange(usize, usize),
    /// The document engine refused an operation.
    DocumentError(String),
}

/// The numeral of a value below ten.
pub open spec fn digit_text(d: nat) -> Seq<char>
    recommends
        d < 10,
{
    if d == 0 {
        "0"@
    } else if d == 1 {
        "1"@
    } else if d == 2 {
        "2"@
    } else if d == 3 {
        "3"@
    } else if d == 4 {
        "4"@
    } else if d == 5 {
        "5"@
    } else if d == 6 {
        "6"@
    } else if d == 7 {
        "7"@
    } else if d == 8 {
        "8"@
    } else {
        "9"@
    }
}

/// The decimal numeral of `n`, without leading zeros.
pub open spec fn decimal(n: nat) -> Seq<char>
    decreases n,
{
    if n < 10 {
        digit_text(n)
    } else {
        decimal(n / 10) + digit_text(n % 10)
    }
}

fn digit(d: usize) -> (text: &'static str)
    requires
        d < 10,
    ensures
        text@ == digit_text(d as nat),
{
    if d == 0 {
        "0"
    } else if d == 1 {
        "1"
    } else if d == 2 {
        "2"
    } else if d == 3 {
        "3"
    } else if d == 4 {
        "4"
    } else if d == 5 {
        "5"
    } else if d == 6 {
        "6"
    } else if d == 7 {
        "7"
    } else if d == 8 {
        "8"
    } else {
        "9"
    }
}

/// Writes `n` in decimal.
pub fn to_decimal(n: usize) -> (text: String)
    ensures
        text@ == decimal(n as nat),
    decreases n,
{
    if n < 10 {
        String::from_str(digit(n))
    } else {
        let mut text = to_decimal(n / 10);
        text.append(digit(n % 10));
        text
    }
}

impl NoteError {
    /// The text of this failure.
    pub open spec fn spec_message(&self) -> Seq<char> {
        match self {
            NoteError::NotFound(id) => "note not found with id: "@ + id@,
            NoteError::MissingId => "id not found"@,
            NoteError::MissingContent => "content not found"@,
            NoteError::DeserializationError(detail) => "Failed to load: "@ + detail@,
            NoteError::IoError(detail) => "I/O error: "@ + detail@,
            NoteError::IndexOutOfRange(asked, available) => "Index "@ + decimal(*asked as nat)
                + " out of range (1-"@ + decimal(*available as nat) + ")"@,
            NoteError::DocumentError(detail) => "Document error: "@ + detail@,
        }
    }

    /// The text of this failure. The kind of a failure is told by its
    /// variant; the text is for people.
    pub fn message(&self) -> (text: String)
        ensures
            text@ == self.spec_message(),
    {
        match self {
            NoteError::NotFound(id) => {
                let mut text = String::from_str("note not found with id: ");
                text.append(id.as_str());
                text
            },
            NoteError::MissingId => String::from_str("id not found"),
            NoteError::MissingContent => String::from_str("content not found"),
            NoteError::DeserializationError(detail) => {
                let mut text = String::from_str("Failed to load: ");
                text.append(detail.as_str());
                text
            },
            NoteError::IoError(detail) => {
                let mut text = String::from_str("I/O error: ");
                text.append(detail.as_str());
                text
            },
            NoteError::IndexOutOfRange(asked, available) => {
                let mut text = String::from_str("Index ");
                text.append(to_decimal(*asked).as_str());
                text.append(" out of range (1-");
                text.append(to_decimal(*available).as_str());
                text.append(")");
                text
            },
            NoteError::DocumentError(detail) => {
                let mut text = String::from_str("Document error: ");
                text.append(detail.as_str());
                text
            },
        }
    }
}

} // verus!
