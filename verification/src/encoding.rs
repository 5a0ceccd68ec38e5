//! Errors of the percent-encoding of request parameters.

use vstd::prelude::*;

verus! {

/// Why a value cannot be percent-encoded.
#[derive(Debug)]
pub enum Error {
    /// A complex type, written as it is debug-printed.
    Unsupported(String),
    /// Any other error, with its message.
    Unknown(String),
}

/// Calls the standard library's debug formatting (`{:?}`) on `value`.
#[verifier::external_body]
fn debug_text<T: std::fmt::Debug>(value: &T) -> String {
    format!("{:?}", value)
}

impl Error {
    /// The error for a value of a complex type, which cannot be percent
    /// encoded.
    pub fn unsupported<T: std::fmt::Debug>(value: T) -> (r: Self)
        ensures
            r is Unsupported,
    {
        Error::Unsupported(debug_text(&value))
    }

    /// An error from a message, as serializers make them.
    pub fn custom(msg: String) -> (r: Self)
        ensures
            r matches Error::Unknown(m) && m@ == msg@,
    {
        Error::Unknown(msg)
    }

    /// The text of the error.
    pub fn message(&self) -> (r: String)
        ensures
            self matches Error::Unsupported(v) ==> r@ == "complex type `"@ + v@ + "` cannot be percent encoded"@,
            self matches Error::Unknown(m) ==> r@ == m@,
    {
        match self {
            Error::Unsupported(v) => {
                let mut s = String::from_str("complex type `");
                s.append(v.as_str());
                s.append("` cannot be percent encoded");
                s
            },
            Error::Unknown(m) => m.clone(),
        }
    }
}

} // verus!
