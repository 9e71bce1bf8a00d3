//! A reader for a small Lisp-like notation: it turns a named source text
//! into a stream of tagged forms - integers, floats, exact rationals,
//! strings, symbols, keywords and three bracket-delimited list kinds -
//! reporting byte-precise spans for text it cannot read. The grammar is
//! specified by the `next_form` function in `reader`, and `Reader::read` is
//! verified against it.

pub mod chars;
pub mod numbers;
pub mod reader;
pub mod text;
pub mod value;
