//! Error types of the rating pipeline.

use vstd::prelude::*;

use vstd::string::StringExecFns;

verus! {

/// Top-level error of the library.
#[derive(Debug)]
pub enum StarRatingError {
    /// File reading error.
    FileError(String),
    /// Parsing error.
    ParseError(String),
    /// Calculation error.
    CalculationError(String),
    /// Missing data error.
    MissingData(String),
    /// Invalid format error.
    InvalidFormat(String),
}

/// Result type of the library.
pub type StarRatingResult<T> = Result<T, StarRatingError>;

/// Errors raised while parsing a chart file.
#[derive(Debug)]
pub enum ParseError {
    /// File not found.
    FileNotFound(String),
    /// A line that cannot be parsed.
    InvalidLine(String),
    /// A section missing from the file.
    MissingSection(String),
    /// An invalid value for a named field.
    InvalidValue(String, String),
    /// Too little data on a line.
    InsufficientData(String),
}

/// The descriptive text of a parse error: a fixed prefix naming the kind,
/// followed by the offending datum.
pub open spec fn parse_error_text(e: ParseError) -> Seq<char> {
    match e {
        ParseError::FileNotFound(path) => "File not found: "@ + path@,
        ParseError::InvalidLine(line) => "Invalid line: "@ + line@,
        ParseError::MissingSection(section) => "Missing section: "@ + section@,
        ParseError::InvalidValue(field, value) => "Invalid value for "@ + field@ + ": "@ + value@,
        ParseError::InsufficientData(msg) => "Insufficient data: "@ + msg@,
    }
}

impl ParseError {
    /// Renders the error as text.
    pub fn message(&self) -> (r: String)
        ensures
            r@ == parse_error_text(*self),
    {
        match self {
            ParseError::FileNotFound(path) => {
                let mut s = String::from_str("File not found: ");
                s.append(path.as_str());
                s
            },
            ParseError::InvalidLine(line) => {
                let mut s = String::from_str("Invalid line: ");
                s.append(line.as_str());
                s
            },
            ParseError::MissingSection(section) => {
                let mut s = String::from_str("Missing section: ");
                s.append(section.as_str());
                s
            },
            ParseError::InvalidValue(field, value) => {
                let mut s = String::from_str("Invalid value for ");
                s.append(field.as_str());
                s.append(": ");
                s.append(value.as_str());
                s
            },
            ParseError::InsufficientData(msg) => {
                let mut s = String::from_str("Insufficient data: ");
                s.append(msg.as_str());
                s
            },
        }
    }
}

/// The descriptive text of a top-level error.
pub open spec fn star_rating_error_text(e: StarRatingError) -> Seq<char> {
    match e {
        StarRatingError::FileError(msg) => "File error: "@ + msg@,
        StarRatingError::ParseError(msg) => "Parse error: "@ + msg@,
        StarRatingError::CalculationError(msg) => "Calculation error: "@ + msg@,
        StarRatingError::MissingData(msg) => "Missing data: "@ + msg@,
        StarRatingError::InvalidFormat(msg) => "Invalid format: "@ + msg@,
    }
}

impl StarRatingError {
    /// Renders the error as text.
    pub fn message(&self) -> (r: String)
        ensures
            r@ == star_rating_error_text(*self),
    {
        match self {
            StarRatingError::FileError(msg) => {
                let mut s = String::from_str("File error: ");
                s.append(msg.as_str());
                s
            },
            StarRatingError::ParseError(msg) => {
                let mut s = String::from_str("Parse error: ");
                s.append(msg.as_str());
                s
            },
            StarRatingError::CalculationError(msg) => {
                let mut s = String::from_str("Calculation error: ");
                s.append(msg.as_str());
                s
            },
            StarRatingError::MissingData(msg) => {
                let mut s = String::from_str("Missing data: ");
                s.append(msg.as_str());
                s
            },
            StarRatingError::InvalidFormat(msg) => {
                let mut s = String::from_str("Invalid format: ");
                s.append(msg.as_str());
                s
            },
        }
    }

    /// Wraps a parse error, keeping its descriptive text.
    pub fn from_parse(e: &ParseError) -> (r: StarRatingError)
        ensures
            r is ParseError,
            star_rating_error_text(r) == "Parse error: "@ + parse_error_text(*e),
    {
        StarRatingError::ParseError(e.message())
    }
}

} // verus!
