//! Boundary protocol between free text produced by a language model and a
//! deterministic agent runtime.
//!
//! Text is scanned for tag-shaped action invocations, invocations are rendered
//! back to the same tag notation, and the agent's working memory is kept in
//! ordered, discipline-restricted stores that render to prompt text.
//!
//! Every function states its behaviour over mathematical models: `Seq<char>`
//! for text, sequences of pairs for attributes, sequences of keyed entries
//! for stores. All of them are proved against these statements, but for the
//! few of [`ordered`], which say what the map they call documents, and for
//! `String::push`.
//!
//! - [`text`]: searching, trimming and decimal numerals on character sequences
//! - [`invocation`]: the invocation and its attributes
//! - [`keyed`]: sequences whose elements are found by a key
//! - [`parser`]: the scanner, from text to invocations
//! - [`serializer`]: the writers, from invocations, actions and stores to text
//! - [`roundtrip`]: what is written is what the scanner reads
//! - [`storage`]: the stores and their disciplines
//! - [`ordered`]: the insertion-ordered map behind a store

pub mod invocation;
pub mod keyed;
pub mod ordered;
pub mod parser;
pub mod roundtrip;
pub mod serializer;
pub mod storage;
pub mod text;
