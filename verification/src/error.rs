//! Error types for reading FlatZinc models.
use vstd::prelude::*;

verus! {

#[verifier::external_type_specification]
#[verifier::external_body]
pub struct ExIoError(std::io::Error);

#[verifier::external_type_specification]
#[verifier::external_body]
pub struct ExUtf8Error(std::str::Utf8Error);

/// Errors that can occur when parsing `.fzn` models.
#[derive(Debug)]
pub enum FznParseError {
    /// Error reading from the source.
    Io(std::io::Error),
    /// Error converting to utf8.
    Utf8Error(std::str::Utf8Error),
    /// Missing solve item in the model.
    MissingSolveItem,
    /// Multiple solve items were encountered in the model.
    MultipleSolveItems,
    /// An error in the syntax of the `fzn`.
    SyntaxError(String),
    /// An error when linking the variables and arrays in the model.
    LinkError(LinkError),
}

/// Error produced while linking the variable and array references of the model.
#[derive(Clone, PartialEq, Eq, Debug)]
pub enum LinkError {
    /// A predicate or annotation identifier could not be interned.
    IdentifierError {
        /// The identifier string that failed to intern.
        ident: String,
        /// The interner error message.
        err: String,
    },
    /// A named literal could not be resolved to a variable or array.
    UnknownReference(String),
    /// A named array identifier that was used as a literal.
    NestedArray(String),
    /// Duplicate definition of a name.
    DuplicateDefinition(String),
}

/// The message of a linking error.
pub open spec fn link_message(e: LinkError) -> Seq<char> {
    match e {
        LinkError::IdentifierError { ident, err } => "failed to intern identifier `"@ + ident@ + "`: "@
            + err@,
        LinkError::UnknownReference(name) => "unknown FlatZinc variable or array `"@ + name@ + "`"@,
        LinkError::NestedArray(name) => "array identifier `"@ + name@ + "` used as part of an array"@,
        LinkError::DuplicateDefinition(name) => "duplicate definition of `"@ + name@ + "`"@,
    }
}

/// The leading words of the message of a parse error, before what the error
/// it carries says.
pub open spec fn parse_message_head(e: FznParseError) -> Seq<char> {
    match e {
        FznParseError::Io(_) => "error reading from source: "@,
        FznParseError::Utf8Error(_) => "invalid utf8: "@,
        FznParseError::MissingSolveItem => "missing solve item"@,
        FznParseError::MultipleSolveItems => "multiple solve items"@,
        FznParseError::SyntaxError(_) => "syntax error: "@,
        FznParseError::LinkError(_) => "error linking model: "@,
    }
}

/// The message of a parse error, for the errors whose message the library
/// fixes.
pub open spec fn parse_message(e: FznParseError) -> Seq<char> {
    match e {
        FznParseError::SyntaxError(t) => parse_message_head(e) + t@,
        FznParseError::LinkError(l) => parse_message_head(e) + link_message(l),
        _ => parse_message_head(e),
    }
}

/// `ToString::to_string` of an I/O error: its text, as the operating system
/// and the standard library word it.
#[verifier::external_body]
fn io_error_text(e: &std::io::Error) -> (r: String) {
    e.to_string()
}

/// `ToString::to_string` of a UTF-8 error: where the invalid bytes start, as
/// the standard library words it.
#[verifier::external_body]
fn utf8_error_text(e: &std::str::Utf8Error) -> (r: String) {
    e.to_string()
}

impl LinkError {
    /// The message that describes the error.
    pub fn message(&self) -> (r: String)
        ensures
            r@ == link_message(*self),
    {
        match self {
            LinkError::IdentifierError { ident, err } => {
                let mut m = String::from_str("failed to intern identifier `");
                m.append(ident.as_str());
                m.append("`: ");
                m.append(err.as_str());
                m
            },
            LinkError::UnknownReference(name) => {
                let mut m = String::from_str("unknown FlatZinc variable or array `");
                m.append(name.as_str());
                m.append("`");
                m
            },
            LinkError::NestedArray(name) => {
                let mut m = String::from_str("array identifier `");
                m.append(name.as_str());
                m.append("` used as part of an array");
                m
            },
            LinkError::DuplicateDefinition(name) => {
                let mut m = String::from_str("duplicate definition of `");
                m.append(name.as_str());
                m.append("`");
                m
            },
        }
    }
}

impl FznParseError {
    /// The message that describes the error. For a read error and a UTF-8
    /// error the message goes on with the text of the error it carries.
    pub fn message(&self) -> (r: String)
        ensures
            r@.len() >= parse_message_head(*self).len(),
            r@.subrange(0, parse_message_head(*self).len() as int) == parse_message_head(*self),
            !(*self is Io || *self is Utf8Error) ==> r@ == parse_message(*self),
    {
        match self {
            FznParseError::Io(e) => {
                let mut m = String::from_str("error reading from source: ");
                let t = io_error_text(e);
                let ghost h = m@;
                m.append(t.as_str());
                proof {
                    assert(m@.subrange(0, h.len() as int) =~= h);
                }
                m
            },
            FznParseError::Utf8Error(e) => {
                let mut m = String::from_str("invalid utf8: ");
                let t = utf8_error_text(e);
                let ghost h = m@;
                m.append(t.as_str());
                proof {
                    assert(m@.subrange(0, h.len() as int) =~= h);
                }
                m
            },
            FznParseError::MissingSolveItem => {
                let m = String::from_str("missing solve item");
                proof {
                    assert(m@.subrange(0, m@.len() as int) =~= m@);
                }
                m
            },
            FznParseError::MultipleSolveItems => {
                let m = String::from_str("multiple solve items");
                proof {
                    assert(m@.subrange(0, m@.len() as int) =~= m@);
                }
                m
            },
            FznParseError::SyntaxError(t) => {
                let mut m = String::from_str("syntax error: ");
                let ghost h = m@;
                m.append(t.as_str());
                proof {
                    assert(m@.subrange(0, h.len() as int) =~= h);
                }
                m
            },
            FznParseError::LinkError(l) => {
                let mut m = String::from_str("error linking model: ");
                let t = l.message();
                let ghost h = m@;
                m.append(t.as_str());
                proof {
                    assert(m@.subrange(0, h.len() as int) =~= h);
                }
                m
            },
        }
    }
}

} // verus!
