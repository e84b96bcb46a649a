//! A reader and a printer for a notation of nested data in the manner of
//! LISP: strings, symbols, keywords, characters, numbers, nil, lists,
//! vectors, sets and maps.
//!
//! `edn::parse` reads the value that a text denotes, and `Expr::to_string`
//! writes the canonical text of a value. What each does is stated over
//! `grammar::read` and `printer::text_of`, and `laws` holds what is proved of
//! the two together: the canonical text of a value is read as that value.
//!
//! No floating point number is held here. A float stands as a decimal
//! number: an exact decimal keeps the digits that were written, and a double
//! drops the zeros at their end, so that it has one text.

pub mod ast;
pub mod canonical;
pub mod collection;
pub mod decimal;
pub mod digits;
pub mod double;
pub mod edn;
pub mod error;
pub mod grammar;
pub mod laws;
pub mod local;
pub mod number;
pub mod occurs;
pub mod order;
pub mod outcome;
pub mod printer;
pub mod readable;
pub mod reread_number;
pub mod respace;
pub mod reread_text;
pub mod roundtrip;
pub mod scalar;
pub mod text;
pub mod validate;
