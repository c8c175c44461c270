//! A configurable lexical splitter.
//!
//! A caller builds a [`filter::Filter`] describing which characters act as
//! token boundaries and whether each boundary character survives as a token
//! of its own, hands it to a [`token::Tokenizer`], and receives for any text
//! an ordered sequence of non-empty tokens.

pub mod filter;
pub mod token;
