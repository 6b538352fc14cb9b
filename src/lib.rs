//! Compiles a small tag markup into flat text spans, each carrying the tags
//! that enclose it and the attributes it inherits from them.
//!
//! - [`grammar`] reads markup text into words;
//! - [`scope`] keeps the stack of open tags and resolves their attributes;
//! - [`compile`] walks the words and emits one span per text;
//! - [`section`] holds spans for display, each with a bag of values that can
//!   be read, or moved out once.
pub mod assoc;
pub mod compile;
pub mod grammar;
pub mod scope;
pub mod section;
pub mod word;
