//! An incremental, character-level tokenizing engine together with the
//! "title" construct built on it: recognition of quoted or parenthesized
//! title text (`"a"`, `'a'`, `(a)`), emitting a position-accurate event
//! stream whose string-typed data spans are linked for a later reparse pass.

pub mod partial_space_or_tab;
pub mod partial_title;
pub mod subtokenize;
pub mod tokenizer;
