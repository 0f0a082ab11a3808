//! Constants for special characters/character sequences
use vstd::prelude::*;

verus! {

/// A character literal delimiter - both open and close are identical
pub const CHAR_DELIM: char = '\'';
/// A string literal delimiter - both open and close are identical
pub const STR_DELIM: char = '"';
/// An escape character
pub const ESCAPE: char = '\\';
/// The prefix of a macro identifier
pub const MACRO_PREFIX: char = '\\';
/// The prefix of a macro parameter identifier
pub const MACRO_PARAM_PREFIX: char = '$';

} // verus!
