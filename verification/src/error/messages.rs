use vstd::prelude::*;

verus! {

/// Reported for a character that starts no value, followed by the character.
pub const ERR_UNEXPECTED_CHAR: &'static str = "Unexpected character: ";

/// Reported when a value is expected and no input remains.
pub const ERR_EMPTY_INPUT: &'static str = "Empty input";

/// Reported when an object key is not a string.
pub const ERR_OBJECT_KEY: &'static str = "Object key must be a string";

/// Reported when the colon after an object key is missing.
pub const ERR_EXPECT_COLON: &'static str = "Expected ':' after object key";

/// Reported when an object member is not followed by a comma or a brace.
pub const ERR_EXPECT_OBJECT_END: &'static str = "Expected ',' or '}' in object";

/// Reported when an array element is not followed by a comma or a bracket.
pub const ERR_EXPECT_ARRAY_END: &'static str = "Expected ',' or ']' in array";

/// Reported for a malformed escape sequence in a string.
pub const ERR_INVALID_ESCAPE: &'static str = "Invalid escape sequence";

/// Reported when the input ends inside a string.
pub const ERR_UNTERMINATED_STRING: &'static str = "Unterminated string";

/// Reported for a second decimal point in a number.
pub const ERR_MULTIPLE_DECIMAL: &'static str = "Multiple decimal points in number";

/// Reported for a malformed decimal literal.
pub const ERR_INVALID_FLOAT: &'static str = "Invalid float number";

/// Reported for a malformed or out-of-range integer literal.
pub const ERR_INVALID_INTEGER: &'static str = "Invalid integer number";

/// Reported when the literal `true` is not spelled out.
pub const ERR_EXPECT_TRUE: &'static str = "Expected 'true'";

/// Reported when the literal `false` is not spelled out.
pub const ERR_EXPECT_FALSE: &'static str = "Expected 'false'";

/// Reported when the literal `null` is not spelled out.
pub const ERR_EXPECT_NULL: &'static str = "Expected 'null'";

} // verus!
