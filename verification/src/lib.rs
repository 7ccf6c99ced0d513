//! A compact request-path router: registered path templates, made of literal
//! segments, single-segment captures and a trailing catch-all, are kept in a
//! trie, and a lookup maps a concrete path to the registered value and the
//! named parameters extracted from it.
pub mod paths;
pub mod trie;
