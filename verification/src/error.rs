//! Why a concatenation fails.
use arrow_schema::ArrowError;
use vstd::prelude::*;

use crate::outside::arrow_error_text;

verus! {

/// Why arrays or batches could not be concatenated.
pub enum ConcatError {
    /// There was nothing to concatenate.
    Compute(String),
    /// The arrays have different types.
    InvalidArgument(String),
    /// The values of dictionaries are more than their keys can number.
    DictionaryKeyOverflow,
    /// The values of dictionaries are larger than one array of their type can hold.
    DictionaryValueOverflow,
    /// Arrow refused the parts of the result.
    Arrow(ArrowError),
}

/// What is said where there is nothing to concatenate.
pub open spec fn nothing_text() -> Seq<char> {
    "concat requires input of at least one array"@
}

/// The error for nothing to concatenate.
pub(crate) fn nothing_to_concat() -> (r: ConcatError)
    ensures
        r matches ConcatError::Compute(text) && text@ == nothing_text(),
{
    ConcatError::Compute("concat requires input of at least one array".to_owned())
}

impl ConcatError {
    /// The error as a line of text. What Arrow refused is told in Arrow's own words.
    pub fn message(&self) -> (r: String)
        ensures
            self matches ConcatError::Compute(text) ==> r@ == "Compute error: "@ + text@,
            self matches ConcatError::InvalidArgument(text) ==> r@ == "Invalid argument error: "@
                + text@,
            self is DictionaryKeyOverflow ==> r@ == "Dictionary key bigger than the key type"@,
            self is DictionaryValueOverflow ==> r@ == "Dictionary values too large for one array"@,
    {
        match self {
            ConcatError::Compute(text) => "Compute error: ".to_owned().concat(text.as_str()),
            ConcatError::InvalidArgument(text) => "Invalid argument error: ".to_owned().concat(
                text.as_str(),
            ),
            ConcatError::DictionaryKeyOverflow => {
                "Dictionary key bigger than the key type".to_owned()
            },
            ConcatError::DictionaryValueOverflow => {
                "Dictionary values too large for one array".to_owned()
            },
            ConcatError::Arrow(error) => arrow_error_text(error),
        }
    }
}

} // verus!
