//! The library's error type.

use vstd::prelude::*;

verus! {

/// An error of the library: either a plain message, or an index file that
/// could not be read.
#[derive(Debug)]
pub enum BinsError {
    /// A failure described by a message.
    Msg(String),
    /// A paste that was read as an index of files is not a valid index.
    InvalidIndex,
}

/// The text that describes an error of the library.
pub open spec fn error_text(e: BinsError) -> Seq<char> {
    match e {
        BinsError::Msg(m) => m@,
        BinsError::InvalidIndex => seq!['i', 'n', 'v', 'a', 'l', 'i', 'd', ' ', 'i', 'n', 'd', 'e', 'x', ' ', 'f', 'i', 'l', 'e'],
    }
}

impl BinsError {
    /// The text that describes this error, as it is shown to the user.
    pub fn message(&self) -> (r: String)
        ensures
            r@ == error_text(*self),
    {
        match self {
            BinsError::Msg(m) => m.clone(),
            BinsError::InvalidIndex => {
                let r = "invalid index file".to_owned();
                proof {
                    reveal_strlit("invalid index file");
                }
                assert(r@ =~= error_text(*self));
                r
            },
        }
    }

    /// Whether this is the error of an invalid index file.
    pub fn is_invalid_index(&self) -> (r: bool)
        ensures
            r == (*self is InvalidIndex),
    {
        match self {
            BinsError::Msg(_) => false,
            BinsError::InvalidIndex => true,
        }
    }
}

/// An error that carries the characters of `s` as its message.
pub fn msg_error(s: &str) -> (r: BinsError)
    ensures
        r matches BinsError::Msg(m) && m@ == s@,
{
    BinsError::Msg(s.to_owned())
}

} // verus!
