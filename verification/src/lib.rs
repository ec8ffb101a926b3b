//! Text-processing core of a template engine.
//!
//! The front end is a cursor over the source text with the parsing
//! primitives built on it (`strnom`). The back end is a serializer that
//! takes the events of a document and gives the escaped text to write
//! (`serializer`, `escape`, with the events as values in `events`). Both
//! tell white space by one rule (`chars`) and share the splitting of a text
//! into leading white space, core and trailing white space (`trim`).

pub mod chars;
pub mod escape;
pub mod events;
pub mod helpers;
pub mod serializer;
pub mod strnom;
pub mod trim;
pub mod utf8_lemmas;
