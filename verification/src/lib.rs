//! A lossless segment tree for SQL, the engine that makes it of tokens by
//! a grammar, and the machinery that edits it and turns an edited tree back
//! into source text.
//!
//! Text is lexed into tokens (`lexer`), the tokens are matched against the
//! grammar of a dialect (`grammar` says what matches, `parser` finds it) and
//! made into a tree (`match_result`, `parse`). Rules look at the tree
//! (`crawlers`, `lints`, `aliasing`, `indent_lint`) and ask for fixes
//! (`fix`), which are applied to the tree (`apply`). What the tree then
//! differs in from the source becomes patches (`patches`), and the patches
//! the fixed source text (`linted_file`).

pub mod aliasing;
pub mod anchors;
pub mod ansi;
pub mod apply;
pub mod apply_laws;
pub mod conflicts;
pub mod crawl;
pub mod crawlers;
pub mod dedupe;
pub mod depth_map;
pub mod dialect;
pub mod equality;
pub mod errors;
pub mod fix;
pub mod formatters;
pub mod grammar;
pub mod helpers;
pub mod indent_crawl;
pub mod indent_lint;
pub mod lexer;
pub mod linted_file;
pub mod lints;
pub mod markers;
pub mod match_check;
pub mod match_result;
pub mod matchable;
pub mod meta;
pub mod parse;
pub mod parser;
pub mod patch_laws;
pub mod patches;
pub mod position;
pub mod prefilter;
pub mod raw;
pub mod reflow;
pub mod regexes;
pub mod registry;
pub mod reindent;
pub mod rules;
pub mod segment;
pub mod seqs;
pub mod string_helpers;
pub mod syntax;
pub mod templater;
pub mod test_functions;
pub mod text;
pub mod text_laws;
pub mod tree_queries;
