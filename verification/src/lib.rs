//! Markdown to HTML conversion on top of small verified text-scanning utilities.

pub mod blocks;
pub mod custom;
pub mod html;
pub mod io;
pub mod outside;
pub mod parsesource;
pub mod progress;
pub mod sourcerefs;
pub mod strings;
pub mod text;
pub mod tokenizer;
