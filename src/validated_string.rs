use vstd::prelude::*;
use vstd::utf8::encode_utf8;

verus! {

/// Longest byte length that a [`ValidatedString`] may have.
pub const MAX_STRING_LEN: usize = 1000;

/// The byte length of the UTF-8 encoding of `s`, as `str::len` reports it.
pub open spec fn utf8_len(s: Seq<char>) -> usize {
    encode_utf8(s).len() as usize
}

/// A string whose UTF-8 encoding is at most [`MAX_STRING_LEN`] bytes long.
#[derive(Debug, Default, Clone)]
pub struct ValidatedString {
    value: String,
}

/// Why a string was not accepted as a [`ValidatedString`].
#[derive(Debug)]
pub enum ValidatedStringError {
    /// The string is longer than [`MAX_STRING_LEN`] bytes; it is handed back.
    StringTooLong(String),
}

impl ValidatedString {
    /// The characters held.
    pub closed spec fn view(&self) -> Seq<char> {
        self.value@
    }

    /// The invariant: the UTF-8 encoding fits the bound.
    pub open spec fn wf(&self) -> bool {
        utf8_len(self.view()) <= MAX_STRING_LEN
    }

    /// Accepts `value` when its UTF-8 encoding is at most [`MAX_STRING_LEN`] bytes long.
    pub fn from_string(value: String) -> (r: Result<Self, ValidatedStringError>)
        ensures
            utf8_len(value@) <= MAX_STRING_LEN <==> r is Ok,
            r matches Ok(v) ==> v.view() == value@ && v.wf(),
            r matches Err(ValidatedStringError::StringTooLong(s)) ==> s@ == value@,
    {
        if value.as_str().len() > MAX_STRING_LEN {
            return Err(ValidatedStringError::StringTooLong(value));
        }
        Ok(Self { value })
    }

    /// The held string.
    pub fn as_str(&self) -> (r: &str)
        ensures
            r@ == self.view(),
    {
        self.value.as_str()
    }
}

} // verus!
