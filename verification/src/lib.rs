//! A recursive-descent parser for a simplified JSON dialect.
//!
//! The grammar is ordered-choice (PEG style): the value dispatcher tries the
//! alternatives null, bool, float-form number, integer, string, array, object
//! in that fixed order and keeps the first success.  Because the float form
//! also matches a bare digit run, an all-digit literal parses as `Number`,
//! never as `Int`; `Int` is produced only by calling the integer parser
//! directly.  Strings perform no escape processing: the content ends at the
//! first `"` after the opening quote.  All of this is deliberate, documented
//! behaviour of the dialect, not an approximation of full JSON.

pub mod grammar;
pub mod laws;
pub mod parser;
pub mod value;
