//! What is proved of every scan.
//!
//! - [`declaration`]: a gate declaration alone gives one `Gate` token.
//! - [`concatenation`]: the tokens of two statements, one written after the
//!   other, are the tokens of the first and then those of the second.
//! - [`round_trip`]: every `Gate` token can be written back to text that
//!   stands in the source.
//! - [`names`]: every `Name` token is a run of letters that stands in the
//!   source after a space and before a `;` or a space.
//! - [`context`]: a name is given nowhere but after `let`, `in` or `out`,
//!   and no token is of a kind that is kept for later use.
//! - [`coverage`]: a rule that looks at the end of the pending span misses
//!   no pattern.
//! - [`scopes`]: the tokens of a text leave no scope open.
//! - [`progress`]: where the pending span stands, and what the rules can
//!   make of it; a scan only adds tokens.

pub mod concatenation;
pub mod context;
pub mod coverage;
pub mod declaration;
pub mod names;
pub mod progress;
pub mod round_trip;
pub mod scopes;
